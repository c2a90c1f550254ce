//! Merging of sorted runs.  The runs stand one behind the other in a range of
//! keys; the merged keys are written to another range.  Of every run only the
//! key at its cursor is looked at, and the smallest of those keys is taken
//! next; a key store on a device brings in the pages as the cursors reach them.

use crate::model::{is_permutation, is_sorted, lemma_permutation_len};
use crate::parts::{concat_parts, lemma_parts_len, lemma_parts_of_ranges, lemma_parts_update, parts_len};
use crate::permutation::same_outside;
use crate::store::KeyStore;
use vstd::prelude::*;

verus! {

/// Where the run that starts at `s` ends: `run` keys further, or at `end`.
pub open spec fn next_cut(s: int, run: int, end: int) -> int {
    if s + run < end {
        s + run
    } else {
        end
    }
}

/// The keys from `s` up to `e` are made of sorted runs of `run` keys each, the
/// last one cut off at `end`.
pub open spec fn runs_sorted(keys: Seq<u64>, s: int, e: int, run: int, end: int) -> bool
    decreases e - s,
{
    if s >= e {
        s == e
    } else if next_cut(s, run, end) <= s || next_cut(s, run, end) > e {
        false
    } else {
        is_sorted(keys.subrange(s, next_cut(s, run, end))) && runs_sorted(
            keys,
            next_cut(s, run, end),
            e,
            run,
            end,
        )
    }
}

/// Sorted runs stay sorted runs when keys outside them change.
pub proof fn lemma_runs_kept(
    keys: Seq<u64>,
    after: Seq<u64>,
    s: int,
    e: int,
    run: int,
    end: int,
)
    requires
        0 <= s <= e <= end <= keys.len(),
        after.len() == keys.len(),
        run >= 1,
        runs_sorted(keys, s, e, run, end),
        forall|p: int| s <= p < e ==> after[p] == keys[p],
    ensures
        runs_sorted(after, s, e, run, end),
    decreases e - s,
{
    if s < e {
        let n = next_cut(s, run, end);
        lemma_runs_reach(keys, s, e, run, end);
        assert(after.subrange(s, n) =~= keys.subrange(s, n));
        lemma_runs_kept(keys, after, n, e, run, end);
    }
}

/// The first run of a chain of runs ends inside the chain.
pub proof fn lemma_runs_reach(keys: Seq<u64>, s: int, e: int, run: int, end: int)
    requires
        s < e <= end,
        run >= 1,
        runs_sorted(keys, s, e, run, end),
    ensures
        s < next_cut(s, run, end) <= e,
{
}

/// A chain of sorted runs is longer by one run once the run behind it is sorted.
pub proof fn lemma_runs_extend(keys: Seq<u64>, s: int, e: int, run: int, end: int)
    requires
        0 <= s <= e < end <= keys.len(),
        run >= 1,
        runs_sorted(keys, s, e, run, end),
        is_sorted(keys.subrange(e, next_cut(e, run, end))),
    ensures
        runs_sorted(keys, s, next_cut(e, run, end), run, end),
    decreases e - s,
{
    if s < e {
        lemma_runs_reach(keys, s, e, run, end);
        lemma_runs_extend(keys, next_cut(s, run, end), e, run, end);
    } else {
        let n = next_cut(e, run, end);
        assert(runs_sorted(keys, n, n, run, end));
    }
}

/// The keys that the cursors have passed, run by run.
pub open spec fn consumed_parts(keys: Seq<u64>, starts: Seq<usize>, cursors: Seq<usize>) -> Seq<
    Seq<u64>,
> {
    Seq::new(starts.len(), |k: int| keys.subrange(starts[k] as int, cursors[k] as int))
}

/// The runs of a merge: they stand one behind the other from `lo` to `hi`, and
/// each is sorted.
pub open spec fn run_table(keys: Seq<u64>, starts: Seq<usize>, ends: Seq<usize>, lo: int, hi: int) -> bool {
    &&& starts.len() == ends.len()
    &&& lo <= hi <= keys.len()
    &&& 0 <= lo
    &&& starts.len() == 0 ==> lo == hi
    &&& starts.len() > 0 ==> starts[0] == lo && ends[ends.len() - 1] == hi
    &&& forall|k: int| 0 <= k < starts.len() ==> (#[trigger] starts[k]) < ends[k]
    &&& forall|k: int| 0 <= k < starts.len() - 1 ==> (#[trigger] ends[k]) == starts[k + 1]
    &&& forall|k: int|
        0 <= k < starts.len() ==> is_sorted(
            #[trigger] keys.subrange(starts[k] as int, ends[k] as int),
        )
}

/// The runs of a run table lie between `lo` and `hi`.
pub proof fn lemma_run_bounds(
    keys: Seq<u64>,
    starts: Seq<usize>,
    ends: Seq<usize>,
    lo: int,
    hi: int,
    k: int,
)
    requires
        run_table(keys, starts, ends, lo, hi),
        0 <= k < starts.len(),
    ensures
        lo <= starts[k] < ends[k] <= hi,
{
    lemma_run_order(keys, starts, ends, lo, hi, 0, k);
    lemma_run_order(keys, starts, ends, lo, hi, k, starts.len() - 1);
}

proof fn lemma_run_order(
    keys: Seq<u64>,
    starts: Seq<usize>,
    ends: Seq<usize>,
    lo: int,
    hi: int,
    a: int,
    b: int,
)
    requires
        run_table(keys, starts, ends, lo, hi),
        0 <= a <= b < starts.len(),
    ensures
        starts[a] <= starts[b],
        ends[a] <= ends[b],
    decreases b - a,
{
    if a < b {
        lemma_run_order(keys, starts, ends, lo, hi, a, b - 1);
        assert(ends[b - 1] == starts[b - 1 + 1]);
        assert(starts[b - 1] < ends[b - 1]);
        assert(starts[b] < ends[b]);
    }
}

/// All runs of a run table together are the keys from `lo` to `hi`.
pub proof fn lemma_runs_are_range(
    keys: Seq<u64>,
    starts: Seq<usize>,
    ends: Seq<usize>,
    lo: int,
    hi: int,
)
    requires
        run_table(keys, starts, ends, lo, hi),
    ensures
        concat_parts(consumed_parts(keys, starts, ends)) == keys.subrange(lo, hi),
{
    let range = keys.subrange(lo, hi);
    let parts = consumed_parts(keys, starts, ends);
    let r = starts.len() as int;
    if r == 0 {
        assert(concat_parts(parts) =~= range);
    } else {
        let cuts = Seq::new((r + 1) as nat, |k: int| if k < r { starts[k] - lo } else { hi - lo });
        assert forall|b: int| 0 <= b < r implies cuts[b] <= #[trigger] cuts[b + 1] by {
            lemma_run_bounds(keys, starts, ends, lo, hi, b);
            if b + 1 < r {
                assert(ends[b] == starts[b + 1]);
            }
        }
        assert forall|b: int| 0 <= b < r implies #[trigger] parts[b] == range.subrange(
            cuts[b],
            cuts[b + 1],
        ) by {
            lemma_run_bounds(keys, starts, ends, lo, hi, b);
            if b + 1 < r {
                assert(ends[b] == starts[b + 1]);
            }
            assert(parts[b] =~= range.subrange(cuts[b], cuts[b + 1]));
        }
        lemma_parts_of_ranges(range, cuts, parts);
        assert(range.subrange(0, hi - lo) =~= range);
    }
}

/// Taking the key at the cursor of run `best` to the end of the output keeps
/// the output a reordering of the keys that the cursors have passed.
pub proof fn lemma_take_key(
    keys: Seq<u64>,
    starts: Seq<usize>,
    cursors: Seq<usize>,
    moved: Seq<usize>,
    best: int,
    output: Seq<u64>,
)
    requires
        starts.len() == cursors.len(),
        0 <= best < starts.len(),
        starts[best] <= cursors[best] < keys.len(),
        moved == cursors.update(best, (cursors[best] + 1) as usize),
        cursors[best] + 1 <= usize::MAX,
        is_permutation(output, concat_parts(consumed_parts(keys, starts, cursors))),
    ensures
        is_permutation(
            output.push(keys[cursors[best] as int]),
            concat_parts(consumed_parts(keys, starts, moved)),
        ),
{
    broadcast use vstd::multiset::group_multiset_axioms;

    let key = keys[cursors[best] as int];
    let before = consumed_parts(keys, starts, cursors);
    let after = consumed_parts(keys, starts, moved);
    let piece = before[best];
    assert(after[best] =~= piece.push(key));
    assert(after =~= before.update(best, piece.push(key)));
    lemma_parts_update(before, best, piece.push(key));
    vstd::seq_lib::to_multiset_build(piece, key);
    vstd::seq_lib::to_multiset_build(output, key);
    let ca = concat_parts(after).to_multiset();
    let cb = concat_parts(before).to_multiset();
    assert forall|v: u64| output.push(key).to_multiset().count(v) == ca.count(v) by {
        assert(ca.add(piece.to_multiset()).count(v) == cb.add(
            piece.push(key).to_multiset(),
        ).count(v));
        assert(ca.add(piece.to_multiset()).count(v) == ca.count(v) + piece.to_multiset().count(v));
        assert(cb.add(piece.push(key).to_multiset()).count(v) == cb.count(v) + piece.push(
            key,
        ).to_multiset().count(v));
        assert(piece.push(key).to_multiset().count(v) == piece.to_multiset().insert(key).count(v));
        assert(output.push(key).to_multiset().count(v) == output.to_multiset().insert(key).count(v));
        assert(output.to_multiset().count(v) == cb.count(v));
    }
    assert(output.push(key).to_multiset() =~= ca);
}

/// Range `k` of a merge lies in the keys and is sorted.
pub open spec fn range_ok(keys: Seq<u64>, starts: Seq<usize>, ends: Seq<usize>, k: int) -> bool {
    &&& starts[k] <= ends[k]
    &&& ends[k] <= keys.len()
    &&& is_sorted(keys.subrange(starts[k] as int, ends[k] as int))
}

/// The ranges of a merge: each lies in the keys and is sorted.
pub open spec fn run_set(keys: Seq<u64>, starts: Seq<usize>, ends: Seq<usize>) -> bool {
    &&& starts.len() == ends.len()
    &&& forall|k: int| 0 <= k < starts.len() ==> #[trigger] range_ok(keys, starts, ends, k)
}

/// Number of keys in all ranges of a merge.
pub open spec fn run_total(keys: Seq<u64>, starts: Seq<usize>, ends: Seq<usize>) -> int {
    parts_len(consumed_parts(keys, starts, ends)) as int
}

/// No range of a merge reaches into the keys from `out` up to `end`.
pub open spec fn runs_clear_of(starts: Seq<usize>, ends: Seq<usize>, out: int, end: int) -> bool {
    forall|k: int|
        0 <= k < starts.len() ==> (#[trigger] starts[k]) == ends[k] || ends[k] <= out || end
            <= starts[k]
}

/// The runs of a run table are ranges of a merge; together they hold the keys
/// from `lo` to `hi`.
pub proof fn lemma_table_is_set(
    keys: Seq<u64>,
    starts: Seq<usize>,
    ends: Seq<usize>,
    lo: int,
    hi: int,
)
    requires
        run_table(keys, starts, ends, lo, hi),
    ensures
        run_set(keys, starts, ends),
        run_total(keys, starts, ends) == hi - lo,
        forall|out: int, end: int| end <= lo || hi <= out ==> runs_clear_of(starts, ends, out, end),
{
    assert forall|k: int| 0 <= k < starts.len() implies #[trigger] range_ok(
        keys,
        starts,
        ends,
        k,
    ) by {
        lemma_run_bounds(keys, starts, ends, lo, hi, k);
        assert(is_sorted(keys.subrange(starts[k] as int, ends[k] as int)));
    }
    lemma_runs_are_range(keys, starts, ends, lo, hi);
    lemma_parts_len(consumed_parts(keys, starts, ends));
    assert forall|out: int, end: int| end <= lo || hi <= out implies runs_clear_of(
        starts,
        ends,
        out,
        end,
    ) by {
        assert forall|k: int| 0 <= k < starts.len() implies (#[trigger] starts[k]) == ends[k]
            || ends[k] <= out || end <= starts[k] by {
            lemma_run_bounds(keys, starts, ends, lo, hi, k);
        }
    }
}

/// The keys that cursors between the starts and the ends of the ranges have
/// passed are no more than the ranges hold; they are as many only if every
/// cursor stands at the end of its range.
pub proof fn lemma_passed_total(
    keys: Seq<u64>,
    starts: Seq<usize>,
    ends: Seq<usize>,
    cursors: Seq<usize>,
)
    requires
        run_set(keys, starts, ends),
        cursors.len() == starts.len(),
        forall|k: int| 0 <= k < starts.len() ==> starts[k] <= #[trigger] cursors[k] <= ends[k],
    ensures
        parts_len(consumed_parts(keys, starts, cursors)) <= run_total(keys, starts, ends),
        parts_len(consumed_parts(keys, starts, cursors)) == run_total(keys, starts, ends)
            ==> cursors == ends,
{
    let passed = consumed_parts(keys, starts, cursors);
    let all = consumed_parts(keys, starts, ends);
    assert forall|k: int| 0 <= k < passed.len() implies (#[trigger] passed[k]).len()
        <= all[k].len() by {
        assert(range_ok(keys, starts, ends, k));
        assert(starts[k] <= cursors[k] <= ends[k]);
    }
    lemma_parts_len_le(passed, all);
    if parts_len(passed) == parts_len(all) {
        lemma_parts_len_equal(passed, all);
        assert(cursors =~= ends) by {
            assert forall|k: int| 0 <= k < starts.len() implies cursors[k] == ends[k] by {
                assert(range_ok(keys, starts, ends, k));
                assert(starts[k] <= cursors[k] <= ends[k]);
                assert(passed[k].len() == all[k].len());
            }
        }
    }
}

/// While output is missing, some cursor has not reached the end of its range.
proof fn lemma_some_run_left(
    keys: Seq<u64>,
    starts: Seq<usize>,
    ends: Seq<usize>,
    cursors: Seq<usize>,
    output: Seq<u64>,
)
    requires
        run_set(keys, starts, ends),
        cursors.len() == starts.len(),
        forall|k: int| 0 <= k < starts.len() ==> starts[k] <= #[trigger] cursors[k] <= ends[k],
        is_permutation(output, concat_parts(consumed_parts(keys, starts, cursors))),
        output.len() < run_total(keys, starts, ends),
    ensures
        exists|k: int| 0 <= k < starts.len() && #[trigger] active(cursors, ends, k),
{
    if forall|k: int| 0 <= k < starts.len() ==> !#[trigger] active(cursors, ends, k) {
        assert(cursors =~= ends) by {
            assert forall|k: int| 0 <= k < starts.len() implies cursors[k] == ends[k] by {
                assert(!active(cursors, ends, k));
                assert(starts[k] <= cursors[k] <= ends[k]);
            }
        }
        lemma_permutation_len(output, concat_parts(consumed_parts(keys, starts, cursors)));
        lemma_parts_len(consumed_parts(keys, starts, cursors));
        assert(false);
    }
}

/// The cursor of run `j` has not reached the end of the run.
pub open spec fn active(cursors: Seq<usize>, ends: Seq<usize>, j: int) -> bool {
    cursors[j] < ends[j]
}

/// The state of a merge after `w` keys have been written to the output at
/// `out`: the output is sorted and holds the keys that the cursors have
/// passed, and `heads` holds the key at every cursor, none of them smaller
/// than the last key written.
pub open spec fn merging(
    input: Seq<u64>,
    now: Seq<u64>,
    starts: Seq<usize>,
    ends: Seq<usize>,
    cursors: Seq<usize>,
    heads: Seq<u64>,
    out: int,
    w: int,
) -> bool {
    &&& run_set(input, starts, ends)
    &&& cursors.len() == starts.len()
    &&& heads.len() == starts.len()
    &&& 0 <= w <= run_total(input, starts, ends)
    &&& 0 <= out
    &&& out + run_total(input, starts, ends) <= input.len()
    &&& runs_clear_of(starts, ends, out, out + run_total(input, starts, ends))
    &&& same_outside(input, now, out, out + w)
    &&& forall|j: int| 0 <= j < starts.len() ==> starts[j] <= #[trigger] cursors[j] <= ends[j]
    &&& forall|j: int|
        0 <= j < starts.len() && #[trigger] active(cursors, ends, j) ==> heads[j]
            == input[cursors[j] as int] && (w > 0 ==> now[out + w - 1] <= heads[j])
    &&& is_sorted(now.subrange(out, out + w))
    &&& is_permutation(now.subrange(out, out + w), concat_parts(consumed_parts(input, starts, cursors)))
}

/// The run whose head is the smallest of the heads of all runs that have keys left.
fn smallest_head(cursors: &Vec<usize>, ends: &Vec<usize>, heads: &Vec<u64>) -> (best: usize)
    requires
        cursors@.len() == ends@.len(),
        heads@.len() == ends@.len(),
        exists|k: int| 0 <= k < ends@.len() && #[trigger] active(cursors@, ends@, k),
    ensures
        best < ends@.len(),
        active(cursors@, ends@, best as int),
        forall|i: int|
            0 <= i < ends@.len() && #[trigger] active(cursors@, ends@, i) ==> heads@[best as int]
                <= heads@[i],
{
    let runs = ends.len();
    let mut best: usize = runs;
    let mut j: usize = 0;
    while j < runs
        invariant
            j <= runs,
            runs == ends@.len(),
            cursors@.len() == runs,
            heads@.len() == runs,
            best <= runs,
            best < runs ==> active(cursors@, ends@, best as int),
            forall|i: int|
                0 <= i < j && #[trigger] active(cursors@, ends@, i) ==> best < runs && heads@[best as int]
                    <= heads@[i],
        decreases runs - j,
    {
        if cursors[j] < ends[j] {
            if best == runs {
                best = j;
            } else if heads[j] < heads[best] {
                best = j;
            }
        }
        j += 1;
    }
    proof {
        let witness = choose|k: int| 0 <= k < ends@.len() && #[trigger] active(cursors@, ends@, k);
        assert(best < runs);
    }
    best
}

/// Where the cursor of run `best` stands next, a key of the input still stands.
proof fn lemma_next_head(
    input: Seq<u64>,
    now: Seq<u64>,
    after: Seq<u64>,
    starts: Seq<usize>,
    ends: Seq<usize>,
    cursors: Seq<usize>,
    heads: Seq<u64>,
    out: int,
    w: int,
    best: int,
)
    requires
        merging(input, now, starts, ends, cursors, heads, out, w),
        w < run_total(input, starts, ends),
        0 <= best < starts.len(),
        active(cursors, ends, best),
        after == now.update(out + w, heads[best]),
    ensures
        cursors[best] + 1 <= ends[best] <= input.len(),
        out + w < input.len(),
        cursors[best] + 1 < ends[best] ==> after[cursors[best] + 1] == input[cursors[best] + 1]
            && input[cursors[best] as int] <= input[cursors[best] + 1],
{
    assert(range_ok(input, starts, ends, best));
    assert(starts[best] <= cursors[best] <= ends[best]);
    if cursors[best] + 1 < ends[best] {
        let region = input.subrange(starts[best] as int, ends[best] as int);
        assert(is_sorted(region));
        assert(region[cursors[best] - starts[best]] <= region[cursors[best] + 1 - starts[best]]);
        assert(starts[best] == ends[best] || ends[best] <= out || out + run_total(
            input,
            starts,
            ends,
        ) <= starts[best]);
        assert(now[cursors[best] + 1] == input[cursors[best] + 1]);
    }
}

/// Writing the smallest head to the output and moving its cursor on keeps the
/// state of the merge.
proof fn lemma_merge_step(
    input: Seq<u64>,
    now: Seq<u64>,
    after: Seq<u64>,
    starts: Seq<usize>,
    ends: Seq<usize>,
    cursors: Seq<usize>,
    moved: Seq<usize>,
    heads: Seq<u64>,
    heads_after: Seq<u64>,
    out: int,
    w: int,
    best: int,
)
    requires
        merging(input, now, starts, ends, cursors, heads, out, w),
        w < run_total(input, starts, ends),
        0 <= best < starts.len(),
        active(cursors, ends, best),
        forall|i: int|
            0 <= i < starts.len() && #[trigger] active(cursors, ends, i) ==> heads[best] <= heads[i],
        after == now.update(out + w, heads[best]),
        moved == cursors.update(best, (cursors[best] + 1) as usize),
        heads_after.len() == heads.len(),
        forall|j: int| 0 <= j < heads.len() && j != best ==> heads_after[j] == heads[j],
        active(moved, ends, best) ==> heads_after[best] == input[moved[best] as int],
    ensures
        merging(input, after, starts, ends, moved, heads_after, out, w + 1),
{
    let key = heads[best];
    let output = now.subrange(out, out + w);
    assert(range_ok(input, starts, ends, best));
    lemma_next_head(input, now, after, starts, ends, cursors, heads, out, w, best);
    assert(key == input[cursors[best] as int]);
    lemma_take_key(input, starts, cursors, moved, best, output);
    assert(after.subrange(out, out + w + 1) =~= output.push(key));
    assert forall|a: int, b: int| 0 <= a <= b < w + 1 implies output.push(key)[a] <= output.push(
        key,
    )[b] by {
        if b == w && a < w {
            assert(output[a] <= output[w - 1]);
            assert(now[out + w - 1] <= heads[best]);
        }
    }
    assert forall|j: int| 0 <= j < starts.len() implies starts[j] <= #[trigger] moved[j]
        <= ends[j] by {
        assert(starts[j] <= cursors[j] <= ends[j]);
    }
    assert forall|j: int| 0 <= j < starts.len() && #[trigger] active(moved, ends, j) implies heads_after[j]
        == input[moved[j] as int] && (w + 1 > 0 ==> after[out + (w + 1) - 1] <= heads_after[j]) by {
        if j != best {
            assert(active(cursors, ends, j));
            assert(heads[best] <= heads[j]);
        }
    }
}

/// Adds up the sizes of the ranges of a merge.
pub fn total_of(Ghost(input): Ghost<Seq<u64>>, starts: &Vec<usize>, ends: &Vec<usize>) -> (total: usize)
    requires
        run_set(input, starts@, ends@),
        run_total(input, starts@, ends@) <= usize::MAX,
    ensures
        total == run_total(input, starts@, ends@),
{
    let ghost all = consumed_parts(input, starts@, ends@);
    let mut total: usize = 0;
    let mut k: usize = 0;
    while k < starts.len()
        invariant
            k <= starts@.len(),
            run_set(input, starts@, ends@),
            all == consumed_parts(input, starts@, ends@),
            parts_len(all) <= usize::MAX,
            total == parts_len(all.subrange(0, k as int)),
        decreases starts@.len() - k,
    {
        proof {
            assert(range_ok(input, starts@, ends@, k as int));
            assert(all.subrange(0, k + 1).drop_last() =~= all.subrange(0, k as int));
            assert(all.subrange(0, k + 1).last() == all[k as int]);
            lemma_parts_len_prefix(all, k + 1);
        }
        total = total + (ends[k] - starts[k]);
        k += 1;
    }
    proof {
        assert(all.subrange(0, starts@.len() as int) =~= all);
    }
    total
}

/// The first parts hold no more keys than all parts.
proof fn lemma_parts_len_prefix(parts: Seq<Seq<u64>>, k: int)
    requires
        0 <= k <= parts.len(),
    ensures
        parts_len(parts.subrange(0, k)) <= parts_len(parts),
    decreases parts.len() - k,
{
    if k < parts.len() {
        lemma_parts_len_prefix(parts, k + 1);
        assert(parts.subrange(0, k + 1).drop_last() =~= parts.subrange(0, k));
    } else {
        assert(parts.subrange(0, k) =~= parts);
    }
}

/// Merges sorted ranges of keys into the range that starts at `out`: range `k`
/// reaches from `starts[k]` up to `ends[k]`.  The output holds as many keys as
/// the ranges together and touches none of them.
pub fn merge_table<S: KeyStore + ?Sized>(
    keys: &mut S,
    starts: &Vec<usize>,
    ends: &Vec<usize>,
    out: usize,
)
    requires
        old(keys).usable(),
        run_set(old(keys).keys(), starts@, ends@),
        out + run_total(old(keys).keys(), starts@, ends@) <= old(keys).keys().len(),
        runs_clear_of(
            starts@,
            ends@,
            out as int,
            out + run_total(old(keys).keys(), starts@, ends@),
        ),
    ensures
        final(keys).usable(),
        final(keys).surroundings() == old(keys).surroundings(),
        same_outside(
            old(keys).keys(),
            final(keys).keys(),
            out as int,
            out + run_total(old(keys).keys(), starts@, ends@),
        ),
        is_sorted(
            final(keys).keys().subrange(
                out as int,
                out + run_total(old(keys).keys(), starts@, ends@),
            ),
        ),
        is_permutation(
            concat_parts(consumed_parts(old(keys).keys(), starts@, ends@)),
            final(keys).keys().subrange(
                out as int,
                out + run_total(old(keys).keys(), starts@, ends@),
            ),
        ),
{
    let ghost input = keys.keys();
    let n = keys.size();
    let total = total_of(Ghost(input), starts, ends);
    let runs = starts.len();
    let mut cursors: Vec<usize> = Vec::new();
    let mut heads: Vec<u64> = Vec::new();
    let mut k: usize = 0;
    while k < runs
        invariant
            k <= runs,
            runs == starts@.len(),
            n == input.len(),
            keys.usable(),
            keys.surroundings() == old(keys).surroundings(),
            keys.keys() == input,
            run_set(input, starts@, ends@),
            cursors@ == starts@.subrange(0, k as int),
            heads@.len() == k,
            forall|j: int|
                0 <= j < k && starts@[j] < ends@[j] ==> #[trigger] heads@[j] == input[starts@[j] as int],
        decreases runs - k,
    {
        proof {
            assert(range_ok(input, starts@, ends@, k as int));
        }
        let head = if starts[k] < ends[k] {
            keys.load(starts[k])
        } else {
            0
        };
        cursors.push(starts[k]);
        heads.push(head);
        proof {
            assert(cursors@ =~= starts@.subrange(0, k + 1));
        }
        k += 1;
    }
    proof {
        assert(cursors@ =~= starts@);
        let parts = consumed_parts(input, starts@, cursors@);
        assert forall|j: int| 0 <= j < parts.len() implies (#[trigger] parts[j]).len() == 0 by {
            assert(range_ok(input, starts@, ends@, j));
        }
        lemma_all_parts_empty(parts);
        assert(keys.keys().subrange(out as int, out as int) =~= Seq::<u64>::empty());
        assert forall|j: int| 0 <= j < starts@.len() implies starts@[j] <= #[trigger] cursors@[j]
            <= ends@[j] by {
            assert(range_ok(input, starts@, ends@, j));
        }
        assert forall|j: int|
            0 <= j < starts@.len() && #[trigger] active(cursors@, ends@, j) implies heads@[j]
            == input[cursors@[j] as int] by {
            assert(starts@[j] < ends@[j]);
        }
    }
    let mut w: usize = 0;
    while w < total
        invariant
            w <= total,
            total == run_total(input, starts@, ends@),
            n == input.len(),
            keys.usable(),
            keys.surroundings() == old(keys).surroundings(),
            keys.keys().len() == n,
            merging(input, keys.keys(), starts@, ends@, cursors@, heads@, out as int, w as int),
        decreases total - w,
    {
        let ghost now = keys.keys();
        let ghost cursors_before = cursors@;
        let ghost heads_before = heads@;
        proof {
            lemma_some_run_left(input, starts@, ends@, cursors@, now.subrange(out as int, out + w));
        }
        let best = smallest_head(&cursors, ends, &heads);
        let key = heads[best];
        proof {
            lemma_next_head(
                input,
                now,
                now.update(out + w, key),
                starts@,
                ends@,
                cursors_before,
                heads_before,
                out as int,
                w as int,
                best as int,
            );
        }
        keys.store(out + w, key);
        let position = cursors[best] + 1;
        cursors[best] = position;
        if position < ends[best] {
            let head = keys.load(position);
            heads[best] = head;
        }
        proof {
            lemma_merge_step(
                input,
                now,
                keys.keys(),
                starts@,
                ends@,
                cursors_before,
                cursors@,
                heads_before,
                heads@,
                out as int,
                w as int,
                best as int,
            );
        }
        w += 1;
    }
    proof {
        let output = keys.keys().subrange(out as int, out + total);
        lemma_permutation_len(output, concat_parts(consumed_parts(input, starts@, cursors@)));
        lemma_parts_len(consumed_parts(input, starts@, cursors@));
        lemma_passed_total(input, starts@, ends@, cursors@);
    }
}

/// Merges the sorted runs that stand one behind the other from `lo` to `hi`,
/// `run` keys each but for the last, into the range of as many keys that
/// starts at `out` and does not touch the runs.
pub fn merge_adjacent<S: KeyStore + ?Sized>(keys: &mut S, lo: usize, hi: usize, run: usize, out: usize)
    requires
        old(keys).usable(),
        run >= 1,
        lo <= hi <= old(keys).keys().len(),
        out + (hi - lo) <= old(keys).keys().len(),
        out + (hi - lo) <= lo || hi <= out,
        runs_sorted(old(keys).keys(), lo as int, hi as int, run as int, hi as int),
    ensures
        final(keys).usable(),
        final(keys).surroundings() == old(keys).surroundings(),
        same_outside(old(keys).keys(), final(keys).keys(), out as int, out + (hi - lo)),
        is_sorted(final(keys).keys().subrange(out as int, out + (hi - lo))),
        is_permutation(
            old(keys).keys().subrange(lo as int, hi as int),
            final(keys).keys().subrange(out as int, out + (hi - lo)),
        ),
{
    let ghost input = keys.keys();
    let (starts, ends) = cut_runs(Ghost(input), lo, hi, run);
    proof {
        lemma_table_is_set(input, starts@, ends@, lo as int, hi as int);
        lemma_runs_are_range(input, starts@, ends@, lo as int, hi as int);
    }
    merge_table(keys, &starts, &ends, out);
}

/// Run `k` of a table under construction lies between `lo` and `upto` and is sorted.
pub open spec fn run_ok(
    input: Seq<u64>,
    starts: Seq<usize>,
    ends: Seq<usize>,
    lo: int,
    upto: int,
    k: int,
) -> bool {
    &&& lo <= starts[k] < ends[k] <= upto
    &&& k + 1 < starts.len() ==> ends[k] == starts[k + 1]
    &&& is_sorted(input.subrange(starts[k] as int, ends[k] as int))
}

/// Cuts the range from `lo` to `hi` into its runs of `run` keys.
pub fn cut_runs(Ghost(input): Ghost<Seq<u64>>, lo: usize, hi: usize, run: usize) -> (table: (
    Vec<usize>,
    Vec<usize>,
))
    requires
        run >= 1,
        lo <= hi <= input.len(),
        runs_sorted(input, lo as int, hi as int, run as int, hi as int),
    ensures
        run_table(input, table.0@, table.1@, lo as int, hi as int),
        forall|k: int|
            0 <= k < table.0@.len() - 1 ==> (#[trigger] table.1@[k]) - table.0@[k] == run,
        forall|k: int| 0 <= k < table.0@.len() ==> (#[trigger] table.1@[k]) - table.0@[k] <= run,
{
    let mut starts: Vec<usize> = Vec::new();
    let mut ends: Vec<usize> = Vec::new();
    let mut s: usize = lo;
    while s < hi
        invariant
            lo <= s <= hi <= input.len(),
            run >= 1,
            starts@.len() == ends@.len(),
            starts@.len() == 0 ==> s == lo,
            starts@.len() > 0 ==> starts@[0] == lo && ends@[ends@.len() - 1] == s,
            forall|k: int|
                0 <= k < starts@.len() ==> #[trigger] run_ok(input, starts@, ends@, lo as int, s as int, k),
            forall|k: int| 0 <= k < starts@.len() ==> (#[trigger] ends@[k]) - starts@[k] <= run,
            forall|k: int|
                0 <= k < starts@.len() && (k < starts@.len() - 1 || s < hi) ==> (
                #[trigger] ends@[k]) - starts@[k] == run,
            runs_sorted(input, s as int, hi as int, run as int, hi as int),
        decreases hi - s,
    {
        let e = if hi - s <= run {
            hi
        } else {
            s + run
        };
        proof {
            assert(e == next_cut(s as int, run as int, hi as int));
        }
        let ghost old_starts = starts@;
        let ghost old_ends = ends@;
        starts.push(s);
        ends.push(e);
        proof {
            assert forall|k: int| 0 <= k < starts@.len() implies #[trigger] run_ok(
                input,
                starts@,
                ends@,
                lo as int,
                e as int,
                k,
            ) by {
                if k < old_starts.len() {
                    assert(run_ok(input, old_starts, old_ends, lo as int, s as int, k));
                }
            }
        }
        s = e;
    }
    proof {
        assert forall|k: int| 0 <= k < starts@.len() implies (#[trigger] starts@[k]) < ends@[k] by {
            assert(run_ok(input, starts@, ends@, lo as int, hi as int, k));
        }
        assert forall|k: int| 0 <= k < starts@.len() - 1 implies (#[trigger] ends@[k]) == starts@[k
            + 1] by {
            assert(run_ok(input, starts@, ends@, lo as int, hi as int, k));
        }
        assert forall|k: int| 0 <= k < starts@.len() implies is_sorted(
            #[trigger] input.subrange(starts@[k] as int, ends@[k] as int),
        ) by {
            assert(run_ok(input, starts@, ends@, lo as int, hi as int, k));
        }
    }
    (starts, ends)
}

/// Parts that are all empty hold no key.
proof fn lemma_all_parts_empty(parts: Seq<Seq<u64>>)
    requires
        forall|b: int| 0 <= b < parts.len() ==> (#[trigger] parts[b]).len() == 0,
    ensures
        concat_parts(parts) == Seq::<u64>::empty(),
    decreases parts.len(),
{
    if parts.len() > 0 {
        lemma_all_parts_empty(parts.drop_last());
        assert(parts[parts.len() - 1].len() == 0);
        assert(concat_parts(parts) =~= Seq::<u64>::empty());
    }
}

/// Parts that are no longer than the matching parts of another sequence of
/// parts, and as long in total, are as long part by part.
proof fn lemma_parts_len_equal(short: Seq<Seq<u64>>, long: Seq<Seq<u64>>)
    requires
        short.len() == long.len(),
        forall|k: int| 0 <= k < short.len() ==> (#[trigger] short[k]).len() <= long[k].len(),
        parts_len(short) == parts_len(long),
    ensures
        forall|k: int| 0 <= k < short.len() ==> (#[trigger] short[k]).len() == long[k].len(),
    decreases short.len(),
{
    if short.len() > 0 {
        let a = short.drop_last();
        let b = long.drop_last();
        lemma_parts_len_le(a, b);
        assert(short[short.len() - 1].len() <= long[long.len() - 1].len());
        lemma_parts_len_equal(a, b);
        assert forall|k: int| 0 <= k < short.len() implies (#[trigger] short[k]).len()
            == long[k].len() by {
            if k < short.len() - 1 {
                assert(a[k].len() == b[k].len());
            }
        }
    }
}

pub proof fn lemma_parts_len_le(short: Seq<Seq<u64>>, long: Seq<Seq<u64>>)
    requires
        short.len() == long.len(),
        forall|k: int| 0 <= k < short.len() ==> (#[trigger] short[k]).len() <= long[k].len(),
    ensures
        parts_len(short) <= parts_len(long),
    decreases short.len(),
{
    if short.len() > 0 {
        lemma_parts_len_le(short.drop_last(), long.drop_last());
        assert(short[short.len() - 1].len() <= long[long.len() - 1].len());
    }
}

} // verus!
