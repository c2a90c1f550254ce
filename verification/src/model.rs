//! The mathematical model that the contracts are stated over: sortedness,
//! radix digits of a key, and how many keys of a sequence fall into a bucket.

use vstd::prelude::*;
use vstd::relations::{sorted_by, total_ordering};
use vstd::seq_lib::{lemma_multiset_commutative, lemma_sorted_unique};

verus! {

/// The keys of `s` are in ascending order.
pub open spec fn is_sorted(s: Seq<u64>) -> bool {
    forall|i: int, j: int| 0 <= i <= j < s.len() ==> s[i] <= s[j]
}

/// `b` holds exactly the keys of `a`, each as often as `a` does.
pub open spec fn is_permutation(a: Seq<u64>, b: Seq<u64>) -> bool {
    a.to_multiset() == b.to_multiset()
}

/// Bit offset of the digit that `level` selects; level 0 is the top byte.
pub open spec fn level_shift(level: int) -> u64 {
    (56 - 8 * level) as u64
}

/// The bucket of `key` at `level`: the digit of the key at that level.
pub open spec fn bucket_of(key: u64, level: int) -> int {
    ((key >> level_shift(level)) & 0xff) as int
}

/// The digits of `key` above `level`.
pub open spec fn high_part(key: u64, level: int) -> u64 {
    (key >> level_shift(level)) >> 8
}

/// The digits of `key` at `level_end` and below it.
pub open spec fn low_part(key: u64, level_end: int) -> u64 {
    key & !(0xffff_ffff_ffff_ffffu64 << ((64 - 8 * level_end) as u64))
}

/// All keys of `s` share the digits above `level` and those from `level_end` on,
/// so only the levels in `level..level_end` tell them apart.
pub open spec fn keys_agree(s: Seq<u64>, level: int, level_end: int) -> bool {
    forall|i: int, j: int|
        0 <= i < s.len() && 0 <= j < s.len() ==> high_part(#[trigger] s[i], level) == high_part(
            #[trigger] s[j],
            level,
        ) && low_part(s[i], level_end) == low_part(s[j], level_end)
}

/// Every key of `s` belongs to bucket `b` at `level`.
pub open spec fn all_in_bucket(s: Seq<u64>, level: int, b: int) -> bool {
    forall|i: int| 0 <= i < s.len() ==> bucket_of(#[trigger] s[i], level) == b
}

/// Number of keys of `s` that belong to bucket `b` at `level`.
pub open spec fn count_in_bucket(s: Seq<u64>, level: int, b: int) -> nat
    decreases s.len(),
{
    if s.len() == 0 {
        0
    } else {
        count_in_bucket(s.drop_last(), level, b) + if bucket_of(s.last(), level) == b {
            1nat
        } else {
            0nat
        }
    }
}

/// Sum of the first `n` entries of `counts`.
pub open spec fn prefix_sum(counts: Seq<u64>, n: int) -> int
    decreases n,
{
    if n <= 0 {
        0
    } else {
        prefix_sum(counts, n - 1) + counts[n - 1]
    }
}

pub proof fn lemma_bucket_range(key: u64, level: int)
    requires
        0 <= level < 8,
    ensures
        0 <= bucket_of(key, level) < 256,
{
    let s = level_shift(level);
    assert((key >> s) & 0xff < 256) by (bit_vector);
}

/// Keys that share the digits above `level` are ordered by their digit at `level`.
pub proof fn lemma_bucket_orders_keys(a: u64, b: u64, level: int)
    requires
        0 <= level < 8,
        high_part(a, level) == high_part(b, level),
        bucket_of(a, level) < bucket_of(b, level),
    ensures
        a < b,
{
    let s = level_shift(level);
    assert(a < b) by (bit_vector)
        requires
            s <= 56,
            (a >> s) >> 8 == (b >> s) >> 8,
            (a >> s) & 0xff < (b >> s) & 0xff,
    ;
}

/// Keys that share all digits down to `level` and all digits below it are equal.
pub proof fn lemma_last_level_equal(a: u64, b: u64, level: int)
    requires
        0 <= level < 8,
        high_part(a, level) == high_part(b, level),
        bucket_of(a, level) == bucket_of(b, level),
        low_part(a, level + 1) == low_part(b, level + 1),
    ensures
        a == b,
{
    let s = level_shift(level);
    assert((64 - 8 * (level + 1)) as u64 == s);
    assert(a == b) by (bit_vector)
        requires
            s <= 56,
            (a >> s) >> 8 == (b >> s) >> 8,
            (a >> s) & 0xff == (b >> s) & 0xff,
            a & !(0xffff_ffff_ffff_ffffu64 << s) == b & !(0xffff_ffff_ffff_ffffu64 << s),
    ;
}

/// Keys of one bucket share the digits above the next level.
pub proof fn lemma_bucket_extends_high_part(a: u64, b: u64, level: int)
    requires
        0 <= level < 7,
        high_part(a, level) == high_part(b, level),
        bucket_of(a, level) == bucket_of(b, level),
    ensures
        high_part(a, level + 1) == high_part(b, level + 1),
{
    let s = level_shift(level);
    let t = level_shift(level + 1);
    assert((a >> t) >> 8 == (b >> t) >> 8) by (bit_vector)
        requires
            8 <= s <= 56,
            t == s - 8,
            (a >> s) >> 8 == (b >> s) >> 8,
            (a >> s) & 0xff == (b >> s) & 0xff,
    ;
}

/// With all eight levels in play nothing is asked of the keys.
pub proof fn lemma_keys_agree_full(s: Seq<u64>)
    ensures
        keys_agree(s, 0, 8),
{
    assert forall|i: int, j: int| 0 <= i < s.len() && 0 <= j < s.len() implies high_part(
        #[trigger] s[i],
        0,
    ) == high_part(#[trigger] s[j], 0) && low_part(s[i], 8) == low_part(s[j], 8) by {
        let a = s[i];
        let b = s[j];
        assert((a >> 56) >> 8 == (b >> 56) >> 8) by (bit_vector);
        assert(a & !(0xffff_ffff_ffff_ffffu64 << 0) == b & !(0xffff_ffff_ffff_ffffu64 << 0))
            by (bit_vector);
    }
}

/// A key of `b` is a key of `a` when the two hold the same keys.
pub proof fn lemma_permutation_member(a: Seq<u64>, b: Seq<u64>, j: int) -> (i: int)
    requires
        is_permutation(a, b),
        0 <= j < b.len(),
    ensures
        0 <= i < a.len(),
        a[i] == b[j],
{
    broadcast use vstd::seq_lib::group_to_multiset_ensures;

    assert(b.contains(b[j]));
    assert(b.to_multiset().count(b[j]) > 0);
    assert(a.contains(b[j]));
    choose|i: int| 0 <= i < a.len() && a[i] == b[j]
}

pub proof fn lemma_permutation_len(a: Seq<u64>, b: Seq<u64>)
    requires
        is_permutation(a, b),
    ensures
        a.len() == b.len(),
{
    vstd::seq_lib::to_multiset_len(a);
    vstd::seq_lib::to_multiset_len(b);
}

/// Reordering keys does not change which digits they share.
pub proof fn lemma_keys_agree_permutation(a: Seq<u64>, b: Seq<u64>, level: int, level_end: int)
    requires
        keys_agree(a, level, level_end),
        is_permutation(a, b),
    ensures
        keys_agree(b, level, level_end),
{
    assert forall|i: int, j: int| 0 <= i < b.len() && 0 <= j < b.len() implies high_part(
        #[trigger] b[i],
        level,
    ) == high_part(#[trigger] b[j], level) && low_part(b[i], level_end) == low_part(
        b[j],
        level_end,
    ) by {
        let p = lemma_permutation_member(a, b, i);
        let q = lemma_permutation_member(a, b, j);
    }
}

/// Reordering keys keeps them in their bucket.
pub proof fn lemma_all_in_bucket_permutation(a: Seq<u64>, b: Seq<u64>, level: int, d: int)
    requires
        all_in_bucket(a, level, d),
        is_permutation(a, b),
    ensures
        all_in_bucket(b, level, d),
{
    assert forall|i: int| 0 <= i < b.len() implies bucket_of(#[trigger] b[i], level) == d by {
        let p = lemma_permutation_member(a, b, i);
    }
}

/// Two sorted sequences that hold the same keys are the same sequence.
pub proof fn lemma_sorted_permutation_unique(a: Seq<u64>, b: Seq<u64>)
    requires
        is_sorted(a),
        is_sorted(b),
        is_permutation(a, b),
    ensures
        a == b,
{
    let leq = |x: u64, y: u64| x <= y;
    assert(total_ordering(leq)) by {
        assert(vstd::relations::reflexive(leq));
        assert(vstd::relations::antisymmetric(leq));
        assert(vstd::relations::transitive(leq));
        assert(vstd::relations::strongly_connected(leq));
    }
    assert(sorted_by(a, leq));
    assert(sorted_by(b, leq));
    lemma_sorted_unique(a, b, leq);
}

/// The keys of `a + b` are those of `a` together with those of `b`.
pub proof fn lemma_concat_multiset(a: Seq<u64>, b: Seq<u64>)
    ensures
        (a + b).to_multiset() == a.to_multiset().add(b.to_multiset()),
{
    lemma_multiset_commutative(a, b);
}

pub proof fn lemma_count_push(s: Seq<u64>, key: u64, level: int, b: int)
    ensures
        count_in_bucket(s.push(key), level, b) == count_in_bucket(s, level, b) + if bucket_of(
            key,
            level,
        ) == b {
            1nat
        } else {
            0nat
        },
{
    assert(s.push(key).drop_last() =~= s);
}

pub proof fn lemma_count_concat(a: Seq<u64>, b: Seq<u64>, level: int, d: int)
    ensures
        count_in_bucket(a + b, level, d) == count_in_bucket(a, level, d) + count_in_bucket(
            b,
            level,
            d,
        ),
    decreases b.len(),
{
    if b.len() == 0 {
        assert(a + b =~= a);
    } else {
        lemma_count_concat(a, b.drop_last(), level, d);
        assert((a + b).drop_last() =~= a + b.drop_last());
    }
}

/// A sequence whose keys all sit in bucket `d` counts its full length there and
/// nothing in any other bucket.
pub proof fn lemma_count_all_in_bucket(s: Seq<u64>, level: int, d: int, e: int)
    requires
        all_in_bucket(s, level, d),
    ensures
        count_in_bucket(s, level, e) == if e == d {
            s.len()
        } else {
            0
        },
    decreases s.len(),
{
    if s.len() > 0 {
        assert(bucket_of(s[s.len() - 1], level) == d);
        lemma_count_all_in_bucket(s.drop_last(), level, d, e);
    }
}

pub proof fn lemma_count_bounded(s: Seq<u64>, level: int, d: int)
    ensures
        count_in_bucket(s, level, d) <= s.len(),
    decreases s.len(),
{
    if s.len() > 0 {
        lemma_count_bounded(s.drop_last(), level, d);
    }
}

/// The count of a bucket depends only on which keys a sequence holds.
pub proof fn lemma_count_permutation(a: Seq<u64>, b: Seq<u64>, level: int, d: int)
    requires
        is_permutation(a, b),
    ensures
        count_in_bucket(a, level, d) == count_in_bucket(b, level, d),
    decreases a.len(),
{
    broadcast use vstd::seq_lib::group_to_multiset_ensures;

    lemma_permutation_len(a, b);
    if a.len() > 0 {
        let last = a.last();
        let j = lemma_permutation_member(b, a, a.len() - 1);
        let b1 = b.remove(j);
        vstd::seq_lib::to_multiset_remove(b, j);
        assert(a.drop_last() =~= a.remove(a.len() - 1));
        vstd::seq_lib::to_multiset_remove(a, a.len() - 1);
        lemma_count_permutation(a.drop_last(), b1, level, d);
        let left = b.subrange(0, j);
        let right = b.subrange(j + 1, b.len() as int);
        assert(b1 =~= left + right);
        assert(b =~= left.push(last) + right);
        lemma_count_concat(left, right, level, d);
        lemma_count_concat(left.push(last), right, level, d);
        lemma_count_push(left, last, level, d);
    }
}

/// Number of keys of `s` that belong to a bucket below `k` at `level`.
pub open spec fn count_below(s: Seq<u64>, level: int, k: int) -> nat
    decreases s.len(),
{
    if s.len() == 0 {
        0
    } else {
        count_below(s.drop_last(), level, k) + if bucket_of(s.last(), level) < k {
            1nat
        } else {
            0nat
        }
    }
}

/// Every aligned block of `BLOCKSIZE` keys of `s` holds keys of one bucket only.
pub open spec fn blocks_uniform(s: Seq<u64>, level: int) -> bool {
    forall|i: int|
        0 <= i < s.len() ==> bucket_of(#[trigger] s[i], level) == bucket_of(
            s[(i / 128) * 128],
            level,
        )
}

/// The smallest multiple of `BLOCKSIZE` that is not below `x`.
pub open spec fn align_up(x: int) -> int {
    ((x + 127) / 128) * 128
}

/// The largest multiple of `BLOCKSIZE` that is not above `x`.
pub open spec fn align_down(x: int) -> int {
    (x / 128) * 128
}

pub proof fn lemma_count_below_step(s: Seq<u64>, level: int, k: int)
    ensures
        count_below(s, level, k + 1) == count_below(s, level, k) + count_in_bucket(s, level, k),
    decreases s.len(),
{
    if s.len() > 0 {
        lemma_count_below_step(s.drop_last(), level, k);
    }
}

pub proof fn lemma_count_below_bounds(s: Seq<u64>, level: int)
    requires
        0 <= level < 8,
    ensures
        count_below(s, level, 0) == 0,
        count_below(s, level, 256) == s.len(),
    decreases s.len(),
{
    if s.len() > 0 {
        lemma_count_below_bounds(s.drop_last(), level);
        lemma_bucket_range(s.last(), level);
    }
}

/// The counts of the buckets below `k` add up to the number of keys below `k`.
pub proof fn lemma_prefix_sum_counts(s: Seq<u64>, level: int, counts: Seq<u64>, k: int)
    requires
        0 <= level < 8,
        0 <= k <= counts.len(),
        forall|b: int| 0 <= b < counts.len() ==> counts[b] == count_in_bucket(s, level, b),
    ensures
        prefix_sum(counts, k) == count_below(s, level, k),
    decreases k,
{
    if k == 0 {
        lemma_count_below_bounds(s, level);
    } else {
        lemma_prefix_sum_counts(s, level, counts, k - 1);
        lemma_count_below_step(s, level, k - 1);
    }
}

/// The bucket counts of a sequence add up to its length.
pub proof fn lemma_bucket_counts_total(s: Seq<u64>, level: int, counts: Seq<u64>)
    requires
        0 <= level < 8,
        counts.len() == 256,
        forall|b: int| 0 <= b < 256 ==> counts[b] == count_in_bucket(s, level, b),
    ensures
        prefix_sum(counts, 256) == s.len(),
{
    lemma_prefix_sum_counts(s, level, counts, 256);
    lemma_count_below_bounds(s, level);
}

pub proof fn lemma_prefix_sum_monotone(counts: Seq<u64>, j: int, k: int)
    requires
        0 <= j <= k <= counts.len(),
    ensures
        0 <= prefix_sum(counts, j) <= prefix_sum(counts, k),
    decreases k - j, k,
{
    if j < k {
        lemma_prefix_sum_monotone(counts, j, k - 1);
    } else if k > 0 {
        lemma_prefix_sum_monotone(counts, j - 1, k - 1);
    }
}

/// A bucket that starts at `x` and holds `count` keys spans at least as many
/// slots as it has full blocks.
pub proof fn lemma_slots_hold_full_blocks(x: int, count: int)
    requires
        0 <= x,
        0 <= count,
    ensures
        (count / 128) * 128 <= align_up(x + count) - align_up(x),
        align_up(x) % 128 == 0,
        x <= align_up(x) < x + 128,
        align_down(x) % 128 == 0,
        align_down(x) <= x < align_down(x) + 128,
        align_up(x + 1) - 128 == align_down(x),
{
}

} // verus!
