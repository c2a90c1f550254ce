//! The sequential sort-merge: every chunk of the device is sorted in the sort
//! buffer, and the sorted chunks are merged, round by round, into longer and
//! longer runs.  Every round reads the runs from one half of the device and
//! writes the merged runs to the other half.

use crate::config::{ELEMENTS_PER_CHUNK, ELEMENTS_PER_LBA};
use crate::device::{Dma, QueuePair};
use crate::merge::{lemma_runs_extend, lemma_runs_kept, lemma_runs_reach, merge_adjacent, next_cut, runs_sorted};
use crate::model::{is_permutation, is_sorted, lemma_concat_multiset, lemma_permutation_len};
use crate::parallel_sort_merge::merge_group_parallel;
use crate::permutation::{move_keys, same_outside};
use crate::sort::{lbas_for, page_buffers, read_write_elements, sort, SortError};
use crate::store::KeyStore;
use crate::window::{lemma_same_view, DeviceKeys};
use vstd::prelude::*;

verus! {

/// The end of the `steps`-th run behind position `s`.
pub open spec fn run_end(s: int, run: int, end: int, steps: int) -> int
    decreases steps,
{
    if steps <= 0 {
        s
    } else {
        next_cut(run_end(s, run, end, steps - 1), run, end)
    }
}

pub proof fn lemma_run_end_bounds(s: int, run: int, end: int, steps: int)
    requires
        s <= end,
        run >= 1,
        steps >= 0,
    ensures
        s <= run_end(s, run, end, steps) <= end,
        steps >= 1 && s < end ==> s < run_end(s, run, end, steps),
        steps >= 1 ==> run_end(s, run, end, steps) >= next_cut(s, run, end),
    decreases steps,
{
    if steps > 0 {
        lemma_run_end_bounds(s, run, end, steps - 1);
    }
}

/// The end of a group of runs lies as far behind its start as the end of the
/// first group lies behind the start of the range.
pub proof fn lemma_run_end_shift(base: int, s: int, run: int, len: int, steps: int)
    requires
        0 <= s <= len,
        run >= 1,
        steps >= 0,
    ensures
        run_end(base + s, run, base + len, steps) == base + next_cut(
            s,
            run_end(0, run, len, steps),
            len,
        ),
    decreases steps,
{
    if steps > 0 {
        lemma_run_end_shift(base, s, run, len, steps - 1);
        lemma_run_end_bounds(0, run, len, steps - 1);
        lemma_run_end_bounds(base + s, run, base + len, steps - 1);
    }
}

/// A chain of sorted runs can be cut behind any number of its runs.
pub proof fn lemma_runs_cut(keys: Seq<u64>, s: int, end: int, run: int, steps: int)
    requires
        0 <= s <= end <= keys.len(),
        run >= 1,
        steps >= 0,
        runs_sorted(keys, s, end, run, end),
    ensures
        runs_sorted(keys, s, run_end(s, run, end, steps), run, end),
        runs_sorted(keys, run_end(s, run, end, steps), end, run, end),
    decreases steps,
{
    if steps > 0 {
        lemma_runs_cut(keys, s, end, run, steps - 1);
        lemma_run_end_bounds(s, run, end, steps - 1);
        let m = run_end(s, run, end, steps - 1);
        if m < end {
            lemma_runs_reach(keys, m, end, run, end);
            lemma_runs_extend(keys, s, m, run, end);
        }
    } else {
        assert(runs_sorted(keys, s, s, run, end));
    }
}

/// The runs of a chain are the same runs when they are cut off where the chain
/// ends.
pub proof fn lemma_runs_prefix(keys: Seq<u64>, s: int, m: int, run: int, end: int)
    requires
        0 <= s <= m <= end <= keys.len(),
        run >= 1,
        runs_sorted(keys, s, m, run, end),
    ensures
        runs_sorted(keys, s, m, run, m),
    decreases m - s,
{
    if s < m {
        let n = next_cut(s, run, end);
        assert(next_cut(s, run, m) == n);
        lemma_runs_prefix(keys, n, m, run, end);
    }
}

/// One run that spans a whole range is a chain of sorted runs exactly if the
/// range is sorted.
pub proof fn lemma_one_run_sorted(keys: Seq<u64>, s: int, end: int, run: int)
    requires
        0 <= s <= end <= keys.len(),
        run >= 1,
        s + run >= end,
        runs_sorted(keys, s, end, run, end),
    ensures
        is_sorted(keys.subrange(s, end)),
{
    if s < end {
        assert(next_cut(s, run, end) == end);
    }
}

/// The position `steps` runs behind `s`.
pub fn advance(s: usize, run: usize, end: usize, steps: usize) -> (e: usize)
    requires
        s <= end,
        run >= 1,
    ensures
        e == run_end(s as int, run as int, end as int, steps as int),
        s <= e <= end,
{
    let mut e = s;
    let mut k: usize = 0;
    while k < steps && e < end
        invariant
            k <= steps,
            s <= e <= end,
            run >= 1,
            e == run_end(s as int, run as int, end as int, k as int),
        decreases steps - k,
    {
        e = if end - e <= run {
            end
        } else {
            e + run
        };
        k += 1;
    }
    proof {
        lemma_run_end_stays(s as int, run as int, end as int, k as int, steps as int);
    }
    e
}

/// Behind the end of the range no run ends later.
proof fn lemma_run_end_stays(s: int, run: int, end: int, k: int, steps: int)
    requires
        s <= end,
        run >= 1,
        0 <= k <= steps,
        k < steps ==> run_end(s, run, end, k) == end,
    ensures
        run_end(s, run, end, steps) == run_end(s, run, end, k),
    decreases steps - k,
{
    if k < steps {
        lemma_run_end_stays(s, run, end, k, steps - 1);
    }
}

/// The state between two groups of a merge round: the runs from `start` on
/// still stand in the half that is read, the merged runs up to `start` stand
/// in the half that is written, and both hold the same keys up to `start`.
pub open spec fn round_state(
    now: Seq<u64>,
    source: Seq<u64>,
    len: int,
    run: int,
    merged: int,
    read: int,
    write: int,
    start: int,
) -> bool {
    &&& 0 <= start <= len
    &&& 0 <= read
    &&& 0 <= write
    &&& read + len <= now.len()
    &&& write + len <= now.len()
    &&& read + len <= write || write + len <= read
    &&& run >= 1
    &&& merged >= 1
    &&& source.len() == now.len()
    &&& now.subrange(read, read + len) == source.subrange(read, read + len)
    &&& same_outside(source, now, write, write + len)
    &&& runs_sorted(now, read + start, read + len, run, read + len)
    &&& runs_sorted(now, write, write + start, merged, write + len)
    &&& is_permutation(now.subrange(read, read + start), now.subrange(write, write + start))
}

/// Merging the next group of runs keeps the state of the round.
proof fn lemma_group_merged(
    now: Seq<u64>,
    after: Seq<u64>,
    source: Seq<u64>,
    len: int,
    run: int,
    merged: int,
    read: int,
    write: int,
    start: int,
    end: int,
)
    requires
        round_state(now, source, len, run, merged, read, write, start),
        start < end <= len,
        runs_sorted(now, read + end, read + len, run, read + len),
        write + end == next_cut(write + start, merged, write + len),
        same_outside(now, after, write + start, write + end),
        is_sorted(after.subrange(write + start, write + end)),
        is_permutation(now.subrange(read + start, read + end), after.subrange(write + start, write + end)),
    ensures
        round_state(after, source, len, run, merged, read, write, end),
{
    broadcast use vstd::multiset::group_multiset_axioms;

    assert(after.subrange(read, read + len) =~= now.subrange(read, read + len));
    assert forall|p: int| read + end <= p < read + len implies after[p] == now[p] by {}
    lemma_runs_kept(now, after, read + end, read + len, run, read + len);
    assert forall|p: int| write <= p < write + start implies after[p] == now[p] by {}
    lemma_runs_kept(now, after, write, write + start, merged, write + len);
    lemma_runs_extend(after, write, write + start, merged, write + len);
    let r0 = now.subrange(read, read + start);
    let r1 = now.subrange(read + start, read + end);
    let w0 = now.subrange(write, write + start);
    let w1 = after.subrange(write + start, write + end);
    assert(after.subrange(read, read + end) =~= r0 + r1);
    assert(after.subrange(write, write + end) =~= w0 + w1);
    lemma_concat_multiset(r0, r1);
    lemma_concat_multiset(w0, w1);
}

/// Merges the sorted runs of `run` keys in the first `len` keys of `keys`,
/// round by round, into one sorted run.  Every round merges groups of
/// `fan_in` runs; the rounds write in turn to the `len` keys from `scratch`
/// on and to the first `len` keys.  Returns whether the sorted run stands in
/// the scratch range.
pub fn merge_rounds<S: KeyStore + ?Sized>(
    keys: &mut S,
    len: usize,
    run: usize,
    scratch: usize,
    fan_in: usize,
) -> (in_scratch: bool)
    requires
        old(keys).usable(),
        run >= 1,
        fan_in >= 2,
        len <= scratch,
        scratch + len <= old(keys).keys().len(),
        runs_sorted(old(keys).keys(), 0, len as int, run as int, len as int),
    ensures
        final(keys).usable(),
        final(keys).surroundings() == old(keys).surroundings(),
        final(keys).keys().len() == old(keys).keys().len(),
        forall|p: int|
            0 <= p < old(keys).keys().len() && !(0 <= p < len) && !(scratch <= p < scratch + len)
                ==> final(keys).keys()[p] == old(keys).keys()[p],
        is_sorted(
            final(keys).keys().subrange(
                if in_scratch {
                    scratch as int
                } else {
                    0
                },
                (if in_scratch {
                    scratch as int
                } else {
                    0
                }) + len,
            ),
        ),
        is_permutation(
            old(keys).keys().subrange(0, len as int),
            final(keys).keys().subrange(
                if in_scratch {
                    scratch as int
                } else {
                    0
                },
                (if in_scratch {
                    scratch as int
                } else {
                    0
                }) + len,
            ),
        ),
{
    merge_rounds_by(keys, len, run, scratch, fan_in, 1)
}

/// Merges the sorted runs of `run` keys in the first `len` keys of `keys`,
/// round by round, into one sorted run, as `merge_rounds` does.  With more
/// than one worker every group of runs is merged in one pass for each worker,
/// which separators keep apart.
pub fn merge_rounds_by<S: KeyStore + ?Sized>(
    keys: &mut S,
    len: usize,
    run: usize,
    scratch: usize,
    fan_in: usize,
    workers: usize,
) -> (in_scratch: bool)
    requires
        old(keys).usable(),
        run >= 1,
        fan_in >= 2,
        workers >= 1,
        len <= scratch,
        scratch + len <= old(keys).keys().len(),
        runs_sorted(old(keys).keys(), 0, len as int, run as int, len as int),
    ensures
        final(keys).usable(),
        final(keys).surroundings() == old(keys).surroundings(),
        final(keys).keys().len() == old(keys).keys().len(),
        forall|p: int|
            0 <= p < old(keys).keys().len() && !(0 <= p < len) && !(scratch <= p < scratch + len)
                ==> final(keys).keys()[p] == old(keys).keys()[p],
        is_sorted(
            final(keys).keys().subrange(
                if in_scratch {
                    scratch as int
                } else {
                    0
                },
                (if in_scratch {
                    scratch as int
                } else {
                    0
                }) + len,
            ),
        ),
        is_permutation(
            old(keys).keys().subrange(0, len as int),
            final(keys).keys().subrange(
                if in_scratch {
                    scratch as int
                } else {
                    0
                },
                (if in_scratch {
                    scratch as int
                } else {
                    0
                }) + len,
            ),
        ),
{
    let ghost input = keys.keys();
    let n = keys.size();
    let mut read: usize = 0;
    let mut write: usize = scratch;
    let mut cur = run;
    while cur < len
        invariant
            cur >= 1,
            fan_in >= 2,
            workers >= 1,
            len <= scratch,
            scratch + len <= n,
            n == input.len(),
            keys.usable(),
            keys.surroundings() == old(keys).surroundings(),
            keys.keys().len() == n,
            (read == 0 && write == scratch) || (read == scratch && write == 0),
            runs_sorted(keys.keys(), read as int, read + len, cur as int, read + len),
            is_permutation(input.subrange(0, len as int), keys.keys().subrange(read as int, read + len)),
            forall|p: int|
                0 <= p < n && !(0 <= p < len) && !(scratch <= p < scratch + len) ==> keys.keys()[p]
                    == input[p],
        decreases len - cur,
    {
        let merged = advance(0, cur, len, fan_in);
        let ghost source = keys.keys();
        proof {
            lemma_run_end_bounds(0, cur as int, len as int, fan_in as int);
            lemma_run_end_bounds(0, cur as int, len as int, 2);
            lemma_run_end_stays_grow(cur as int, len as int, fan_in as int);
            assert(keys.keys().subrange(read as int, read as int) =~= keys.keys().subrange(
                write as int,
                write as int,
            ));
            assert(runs_sorted(keys.keys(), write as int, write as int, merged as int, write + len));
        }
        let mut start: usize = 0;
        while start < len
            invariant
                start <= len,
                cur >= 1,
                fan_in >= 2,
                workers >= 1,
                merged > cur,
                merged == run_end(0, cur as int, len as int, fan_in as int),
                n == input.len(),
                source.len() == n,
                keys.usable(),
                keys.surroundings() == old(keys).surroundings(),
                keys.keys().len() == n,
                (read == 0 && write == scratch) || (read == scratch && write == 0),
                len <= scratch,
                scratch + len <= n,
                round_state(
                    keys.keys(),
                    source,
                    len as int,
                    cur as int,
                    merged as int,
                    read as int,
                    write as int,
                    start as int,
                ),
            decreases len - start,
        {
            let end = advance(start, cur, len, fan_in);
            let ghost now = keys.keys();
            proof {
                lemma_run_end_bounds(start as int, cur as int, len as int, fan_in as int);
                lemma_run_end_shift(read as int, start as int, cur as int, len as int, fan_in as int);
                lemma_run_end_shift(0, start as int, cur as int, len as int, fan_in as int);
                lemma_runs_cut(now, read + start, read + len, cur as int, fan_in as int);
                lemma_runs_prefix(now, read + start, read + end, cur as int, read + len);
            }
            if workers >= 2 {
                merge_group_parallel(keys, read + start, read + end, cur, write + start, workers);
            } else {
                merge_adjacent(keys, read + start, read + end, cur, write + start);
            }
            proof {
                lemma_group_merged(
                    now,
                    keys.keys(),
                    source,
                    len as int,
                    cur as int,
                    merged as int,
                    read as int,
                    write as int,
                    start as int,
                    end as int,
                );
            }
            start = end;
        }
        proof {
            let now = keys.keys();
            assert(now.subrange(read as int, read + len) == source.subrange(read as int, read + len));
            assert forall|p: int|
                0 <= p < n && !(0 <= p < len) && !(scratch <= p < scratch + len) implies now[p]
                == input[p] by {
                assert(now[p] == source[p]);
            }
        }
        let swap = read;
        read = write;
        write = swap;
        cur = merged;
    }
    proof {
        lemma_one_run_sorted(keys.keys(), read as int, read + len, cur as int);
    }
    read != 0
}

/// A group of at least two runs is longer than one run, unless one run spans
/// the range.
proof fn lemma_run_end_stays_grow(run: int, len: int, fan_in: int)
    requires
        1 <= run < len,
        fan_in >= 2,
    ensures
        run_end(0, run, len, fan_in) > run,
    decreases fan_in,
{
    lemma_run_end_bounds(0, run, len, fan_in - 1);
    if fan_in > 2 {
        lemma_run_end_stays_grow(run, len, fan_in - 1);
    } else {
        assert(run_end(0, run, len, 1) == next_cut(run_end(0, run, len, 0), run, len));
        assert(run_end(0, run, len, 0) == 0);
    }
}

/// Where the half of the device starts that the merge rounds use for their
/// output in turn with the half that holds the keys: at the first page behind
/// the keys.
pub open spec fn scratch_start(len: int) -> int {
    ((len + 1023) / 1024) * 1024
}

/// A key of the device is touched by a sort-merge of its first `len` keys: it
/// is one of those keys or lies in the half behind them.
pub open spec fn in_merge_area(len: int, p: int) -> bool {
    0 <= p < len || scratch_start(len) <= p < scratch_start(len) + len
}

/// Merges the sorted runs in the first `len` keys of the device into one
/// sorted run.  A run holds as many keys as `output_buffer` has room for.
/// The page buffers of `buffer` are the window on the device; all but one of
/// them serve the runs of a group, so that as many runs are merged at a time.
pub fn merge_sequential(
    qpair: &mut QueuePair,
    len: usize,
    buffer: &mut Vec<Dma>,
    output_buffer: &mut Dma,
)
    requires
        old(qpair).wf(),
        old(qpair).in_flight == 0,
        old(qpair).image@.len() % 1024 == 0,
        old(qpair).image@.len() < usize::MAX,
        page_buffers(old(buffer)@),
        old(buffer)@.len() >= 3,
        old(output_buffer).keys@.len() >= 1,
        scratch_start(len as int) + len <= old(qpair).image@.len(),
        runs_sorted(
            old(qpair).image@,
            0,
            len as int,
            old(output_buffer).keys@.len() as int,
            len as int,
        ),
    ensures
        final(qpair).wf(),
        final(qpair).in_flight == 0,
        final(qpair).image@.len() == old(qpair).image@.len(),
        page_buffers(final(buffer)@),
        final(buffer)@.len() == old(buffer)@.len(),
        final(output_buffer).keys@ == old(output_buffer).keys@,
        is_sorted(final(qpair).image@.subrange(0, len as int)),
        is_permutation(
            old(qpair).image@.subrange(0, len as int),
            final(qpair).image@.subrange(0, len as int),
        ),
        forall|p: int|
            0 <= p < old(qpair).image@.len() && !in_merge_area(len as int, p) ==> final(qpair).image@[p] == old(qpair).image@[p],
{
    let run = output_buffer.size();
    let fan_in = buffer.len() - 1;
    merge_on_device(qpair, len, buffer, run, fan_in, 1);
}

/// Merges the sorted runs of `run` keys in the first `len` keys of the device
/// into one sorted run, `fan_in` runs at a time, every group of runs in one
/// pass for every worker.  The rounds write in turn to the half of the device
/// behind the keys and to the keys; a result that stands in the half behind
/// is moved to the front at the end.
pub fn merge_on_device(
    qpair: &mut QueuePair,
    len: usize,
    buffer: &mut Vec<Dma>,
    run: usize,
    fan_in: usize,
    workers: usize,
)
    requires
        old(qpair).wf(),
        old(qpair).in_flight == 0,
        old(qpair).image@.len() % 1024 == 0,
        old(qpair).image@.len() < usize::MAX,
        page_buffers(old(buffer)@),
        run >= 1,
        fan_in >= 2,
        workers >= 1,
        scratch_start(len as int) + len <= old(qpair).image@.len(),
        runs_sorted(old(qpair).image@, 0, len as int, run as int, len as int),
    ensures
        final(qpair).wf(),
        final(qpair).in_flight == 0,
        final(qpair).image@.len() == old(qpair).image@.len(),
        page_buffers(final(buffer)@),
        final(buffer)@.len() == old(buffer)@.len(),
        is_sorted(final(qpair).image@.subrange(0, len as int)),
        is_permutation(
            old(qpair).image@.subrange(0, len as int),
            final(qpair).image@.subrange(0, len as int),
        ),
        forall|p: int|
            0 <= p < old(qpair).image@.len() && !in_merge_area(len as int, p) ==> final(qpair).image@[p] == old(qpair).image@[p],
{
    let ghost image = qpair.image@;
    let image_len = qpair.image.len();
    let scratch = (len / ELEMENTS_PER_CHUNK + (len % ELEMENTS_PER_CHUNK + (ELEMENTS_PER_CHUNK - 1))
        / ELEMENTS_PER_CHUNK) * ELEMENTS_PER_CHUNK;
    assert(scratch == scratch_start(len as int));
    let mut device = QueuePair { image: Vec::new(), in_flight: 0 };
    let mut pages: Vec<Dma> = Vec::new();
    std::mem::swap(&mut device, qpair);
    std::mem::swap(&mut pages, buffer);
    let mut window = DeviceKeys::open(device, pages, 0, image_len);
    let ghost opened = window;
    proof {
        assert(window.keys() =~= image);
    }
    let in_scratch = merge_rounds_by(&mut window, len, run, scratch, fan_in, workers);
    let ghost merged = window.keys();
    if in_scratch {
        move_keys(&mut window, 0, scratch, len);
        proof {
            assert(window.keys().subrange(0, len as int) =~= merged.subrange(
                scratch as int,
                scratch + len,
            ));
        }
    }
    let ghost result = window.keys();
    proof {
        crate::rolling_sort::lemma_window_result(&opened, &window);
        assert(result =~= window.shown());
    }
    window.flush();
    proof {
        assert forall|s: int| 0 <= s < window.slots() implies (
        #[trigger] window.buffers@[s]).keys@.len() == 1024 by {
            assert(window.slot_ok(s));
        }
    }
    let (mut device, mut pages) = window.close();
    std::mem::swap(&mut device, qpair);
    std::mem::swap(&mut pages, buffer);
}

/// The error that keeps a sort-merge of the first `len` keys of the device
/// from starting, if any.  The window needs at least `slots` page buffers.
pub open spec fn sort_merge_error(
    qpair: QueuePair,
    buffers: Seq<Dma>,
    sort_buffer: Dma,
    len: int,
    slots: int,
) -> Option<SortError> {
    if !(qpair.wf() && qpair.in_flight == 0 && qpair.image@.len() % 1024 == 0) {
        Some(SortError::BadDevice)
    } else if scratch_start(len) + len > qpair.image@.len() {
        Some(SortError::OutOfRange)
    } else if !(page_buffers(buffers) && buffers.len() >= slots && sort_buffer.keys@.len() >= 64
        && sort_buffer.keys@.len() % 64 == 0) {
        Some(SortError::BadBuffers)
    } else {
        None
    }
}

/// What a sort-merge of the first `len` keys of the device returns: the error
/// that kept it from starting, or the device with its first `len` keys
/// sorted and nothing changed outside the keys and the half behind them.
pub open spec fn sort_merge_result(
    qpair: QueuePair,
    buffers: Seq<Dma>,
    sort_buffer: Dma,
    len: int,
    slots: int,
    result: Result<QueuePair, SortError>,
) -> bool {
    match sort_merge_error(qpair, buffers, sort_buffer, len, slots) {
        Some(error) => result == Err::<QueuePair, SortError>(error),
        None => result is Ok && result.unwrap().wf() && result.unwrap().in_flight == 0
            && result.unwrap().image@.len() == qpair.image@.len() && is_sorted(
            result.unwrap().image@.subrange(0, len),
        ) && is_permutation(qpair.image@.subrange(0, len), result.unwrap().image@.subrange(0, len))
            && forall|p: int|
            0 <= p < qpair.image@.len() && !in_merge_area(len, p) ==> result.unwrap().image@[p]
                == qpair.image@[p],
    }
}

/// Sorts the first `len` keys of the device: every chunk of as many keys as
/// `sort_buffer` has room for is read into the buffer, sorted there and
/// written back; then the sorted chunks are merged.  The half of the device
/// behind the keys, from the first page boundary on, is used for the merge.
pub fn sequential_sort_merge(
    qpair: QueuePair,
    buffers: Vec<Dma>,
    sort_buffer: Dma,
    len: usize,
) -> (result: Result<QueuePair, SortError>)
    ensures
        sort_merge_result(qpair, buffers@, sort_buffer, len as int, 3, result),
{
    let fan_in = if buffers.len() >= 3 {
        buffers.len() - 1
    } else {
        2
    };
    sort_merge_by(qpair, buffers, sort_buffer, len, 3, fan_in, 1)
}

/// Sorts the first `len` keys of the device by sorting chunks and merging
/// them, `fan_in` runs at a time and with `workers` passes over every group.
pub fn sort_merge_by(
    qpair: QueuePair,
    buffers: Vec<Dma>,
    sort_buffer: Dma,
    len: usize,
    slots: usize,
    fan_in: usize,
    workers: usize,
) -> (result: Result<QueuePair, SortError>)
    requires
        fan_in >= 2,
        workers >= 1,
    ensures
        sort_merge_result(qpair, buffers@, sort_buffer, len as int, slots as int, result),
{
    let image_len = qpair.image.len();
    if !(image_len % ELEMENTS_PER_LBA == 0 && qpair.in_flight == 0 && image_len % ELEMENTS_PER_CHUNK
        == 0) {
        return Err(SortError::BadDevice);
    }
    if len > image_len {
        return Err(SortError::OutOfRange);
    }
    let scratch = (len / ELEMENTS_PER_CHUNK + (len % ELEMENTS_PER_CHUNK + (ELEMENTS_PER_CHUNK - 1))
        / ELEMENTS_PER_CHUNK) * ELEMENTS_PER_CHUNK;
    assert(scratch == scratch_start(len as int));
    if len > image_len - scratch {
        return Err(SortError::OutOfRange);
    }
    let chunk = sort_buffer.size();
    if !(crate::sort::check_page_buffers(&buffers) && buffers.len() >= slots && chunk
        >= ELEMENTS_PER_LBA && chunk % ELEMENTS_PER_LBA == 0) {
        return Err(SortError::BadBuffers);
    }
    let ghost input = qpair.image@;
    let mut qpair = qpair;
    let mut buffers = buffers;
    let mut sort_buffer = sort_buffer;
    sort_chunks(&mut qpair, &mut sort_buffer, len);
    let ghost sorted_chunks = qpair.image@;
    merge_on_device(&mut qpair, len, &mut buffers, chunk, fan_in, workers);
    proof {
        let after = qpair.image@;
        assert forall|p: int| 0 <= p < input.len() && !in_merge_area(len as int, p) implies after[p]
            == input[p] by {
            assert(after[p] == sorted_chunks[p]);
        }
    }
    Ok(qpair)
}

/// Sorts every chunk of the first `len` keys of the device in the sort buffer.
/// A chunk holds as many keys as the buffer has room for.
pub fn sort_chunks(qpair: &mut QueuePair, sort_buffer: &mut Dma, len: usize)
    requires
        old(qpair).wf(),
        old(qpair).in_flight == 0,
        len <= old(qpair).image@.len(),
        old(sort_buffer).keys@.len() >= 64,
        old(sort_buffer).keys@.len() % 64 == 0,
    ensures
        final(qpair).wf(),
        final(qpair).in_flight == 0,
        final(qpair).image@.len() == old(qpair).image@.len(),
        final(sort_buffer).keys@.len() == old(sort_buffer).keys@.len(),
        runs_sorted(
            final(qpair).image@,
            0,
            len as int,
            old(sort_buffer).keys@.len() as int,
            len as int,
        ),
        is_permutation(
            old(qpair).image@.subrange(0, len as int),
            final(qpair).image@.subrange(0, len as int),
        ),
        forall|p: int| len <= p < old(qpair).image@.len() ==> final(qpair).image@[p] == old(qpair).image@[p],
{
    let ghost input = qpair.image@;
    let image_len = qpair.image.len();
    let chunk = sort_buffer.size();
    let mut start: usize = 0;
    proof {
        assert(qpair.image@.subrange(0, 0) =~= input.subrange(0, 0));
    }
    while start < len
        invariant
            start <= len,
            start % 64 == 0 || start == len,
            chunk >= 64,
            chunk % 64 == 0,
            chunk == sort_buffer.keys@.len(),
            len <= image_len,
            image_len == input.len(),
            qpair.wf(),
            qpair.in_flight == 0,
            qpair.image@.len() == image_len,
            runs_sorted(qpair.image@, 0, start as int, chunk as int, len as int),
            is_permutation(input.subrange(0, start as int), qpair.image@.subrange(0, start as int)),
            forall|p: int| start <= p < image_len ==> qpair.image@[p] == input[p],
        decreases len - start,
    {
        let count = if len - start <= chunk {
            len - start
        } else {
            chunk
        };
        let ghost before = qpair.image@;
        sort_chunk(qpair, sort_buffer, start, count);
        proof {
            lemma_chunk_sorted(input, before, qpair.image@, start as int, count as int, chunk as int, len as int);
        }
        start = start + count;
    }
}

/// What sorting the chunk at `start` adds to the sorted chunks before it.
proof fn lemma_chunk_sorted(
    input: Seq<u64>,
    before: Seq<u64>,
    after: Seq<u64>,
    start: int,
    count: int,
    chunk: int,
    len: int,
)
    requires
        0 <= start < len <= input.len(),
        chunk >= 1,
        before.len() == input.len(),
        after.len() == input.len(),
        start + count == next_cut(start, chunk, len),
        runs_sorted(before, 0, start, chunk, len),
        is_permutation(input.subrange(0, start), before.subrange(0, start)),
        forall|p: int| start <= p < input.len() ==> before[p] == input[p],
        same_outside(before, after, start, start + count),
        is_sorted(after.subrange(start, start + count)),
        is_permutation(before.subrange(start, start + count), after.subrange(start, start + count)),
    ensures
        runs_sorted(after, 0, start + count, chunk, len),
        is_permutation(input.subrange(0, start + count), after.subrange(0, start + count)),
        forall|p: int| start + count <= p < input.len() ==> after[p] == input[p],
{
    broadcast use vstd::multiset::group_multiset_axioms;

    let end = start + count;
    assert forall|p: int| 0 <= p < start implies after[p] == before[p] by {}
    lemma_runs_kept(before, after, 0, start, chunk, len);
    lemma_runs_extend(after, 0, start, chunk, len);
    assert(after.subrange(0, end) =~= after.subrange(0, start) + after.subrange(start, end));
    assert(input.subrange(0, end) =~= input.subrange(0, start) + input.subrange(start, end));
    assert(after.subrange(0, start) =~= before.subrange(0, start));
    assert(before.subrange(start, end) =~= input.subrange(start, end));
    lemma_concat_multiset(after.subrange(0, start), after.subrange(start, end));
    lemma_concat_multiset(input.subrange(0, start), input.subrange(start, end));
    assert forall|p: int| end <= p < input.len() implies after[p] == input[p] by {
        assert(after[p] == before[p]);
    }
}

/// Sorts the `count` keys of the device from position `start` on, which is
/// the start of a logical block, in the sort buffer.
fn sort_chunk(qpair: &mut QueuePair, sort_buffer: &mut Dma, start: usize, count: usize)
    requires
        old(qpair).wf(),
        old(qpair).in_flight == 0,
        start % 64 == 0,
        count <= old(sort_buffer).keys@.len(),
        old(sort_buffer).keys@.len() % 64 == 0,
        start + count <= old(qpair).image@.len(),
    ensures
        final(qpair).wf(),
        final(qpair).in_flight == 0,
        final(qpair).image@.len() == old(qpair).image@.len(),
        final(sort_buffer).keys@.len() == old(sort_buffer).keys@.len(),
        same_outside(old(qpair).image@, final(qpair).image@, start as int, start + count),
        is_sorted(final(qpair).image@.subrange(start as int, start + count)),
        is_permutation(
            old(qpair).image@.subrange(start as int, start + count),
            final(qpair).image@.subrange(start as int, start + count),
        ),
{
    let ghost image0 = qpair.image@;
    let ghost num_lba = lbas_for(0, count as int);
    let image_len = qpair.image.len();
    let lba = start / ELEMENTS_PER_LBA;
    read_write_elements(qpair, sort_buffer, lba, 0, count, false);
    let ghost loaded = sort_buffer.keys@;
    let slice = sort_buffer.keys.as_mut_slice();
    let (front, _back) = slice.split_at_mut(count);
    proof {
        assert(front@ =~= image0.subrange(start as int, start + count));
    }
    sort(front);
    let ghost ordered = front@;
    proof {
        lemma_permutation_len(image0.subrange(start as int, start + count), ordered);
        assert(sort_buffer.keys@ =~= ordered + loaded.subrange(count as int, loaded.len() as int));
    }
    let ghost stored = sort_buffer.keys@;
    read_write_elements(qpair, sort_buffer, lba, 0, count, true);
    proof {
        let image = qpair.image@;
        assert forall|p: int|
            0 <= p < image0.len() && !(start <= p < start + count) implies #[trigger] image[p]
            == image0[p] by {
            if start <= p < start + num_lba * 64 {
                assert(image[p] == stored[p - start + 0]);
                assert(loaded[p - start] == image0[p - start - 0 + start]);
            }
        }
        assert(image.subrange(start as int, start + count) =~= ordered);
    }
}

} // verus!
