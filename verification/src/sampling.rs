//! Choice of the radix levels that a task has to be partitioned at.  A seeded
//! sample of the keys shows which bytes differ at all; where the sample finds
//! leading or trailing bytes that agree, one pass over all keys settles the
//! levels and detects a range that is sorted already, forwards or backwards.

use crate::model::{high_part, is_permutation, is_sorted, keys_agree, lemma_keys_agree_full, low_part};
use crate::sorter::Task;
use vstd::arithmetic::power2::{lemma2_to64, lemma_pow2_strictly_increases, pow2};
use vstd::prelude::*;
use vstd::std_specs::bits::{
    axiom_u64_leading_zeros, axiom_u64_trailing_zeros, u64_leading_zeros, u64_trailing_zeros,
};

verus! {

/// The standard generator of the `rand` crate.
#[verifier::external_type_specification]
#[verifier::external_body]
pub struct ExStdRng(rand::rngs::StdRng);

/// `SeedableRng::seed_from_u64` of `rand`: a generator in the state that the
/// seed determines.  Nothing is claimed of the numbers it will give.
#[verifier::external_body]
fn seeded_generator(seed: u64) -> (rng: rand::rngs::StdRng) {
    <rand::rngs::StdRng as rand::SeedableRng>::seed_from_u64(seed)
}

/// `Rng::gen_range` of `rand` on the range `lo..hi`, which must not be empty:
/// the number drawn lies in the range.  Which number it is depends on the
/// state of the generator.
#[verifier::external_body]
fn draw_index(rng: &mut rand::rngs::StdRng, lo: usize, hi: usize) -> (drawn: usize)
    requires
        lo < hi,
    ensures
        lo <= drawn < hi,
{
    rand::Rng::gen_range(rng, lo..hi)
}

/// Seed of the sample, so that two runs on the same keys take the same sample.
pub const SAMPLE_SEED: u64 = 12345;

/// The bits in which any of the first `k` keys of `s` differs from the first key.
pub open spec fn differing_bits(s: Seq<u64>, k: int) -> u64
    decreases k,
{
    if k <= 1 {
        0
    } else {
        differing_bits(s, k - 1) | (s[0] ^ s[k - 1])
    }
}

/// The levels of the bytes that `differing` has bits in: from the level of its
/// first byte that is not zero up to, and not including, the level behind its
/// last such byte.
pub open spec fn levels_of(differing: u64) -> (int, int) {
    (u64_leading_zeros(differing) / 8, 8 - u64_trailing_zeros(differing) as int / 8)
}

/// The logarithm to base 2 of `n`, rounded down.
pub open spec fn spec_floor_log2(n: int) -> int
    decreases n,
{
    if n <= 1 {
        0
    } else {
        1 + spec_floor_log2(n / 2)
    }
}

/// Number of keys in the sample of a range of `n` keys.
pub open spec fn sample_size(n: int) -> int {
    let log = spec_floor_log2(n);
    (if log / 4 >= 1 {
        log / 4
    } else {
        1
    }) * (if log >= 1 {
        log
    } else {
        1
    })
}

/// Every pair of neighbours in `s` is in ascending order.
pub open spec fn ascending_steps(s: Seq<u64>, upto: int) -> bool {
    forall|j: int| 1 <= j < upto ==> s[j - 1] <= #[trigger] s[j]
}

/// Every pair of neighbours in `s` is in descending order.
pub open spec fn descending_steps(s: Seq<u64>, upto: int) -> bool {
    forall|j: int| 1 <= j < upto ==> s[j - 1] >= #[trigger] s[j]
}

/// The bits in which `key` differs from `reference` are all bits of `differing`.
pub open spec fn covered(key: u64, reference: u64, differing: u64) -> bool {
    (key ^ reference) & !differing == 0
}

proof fn lemma_floor_log2_bounds(n: int)
    requires
        1 <= n,
    ensures
        0 <= spec_floor_log2(n),
        pow2(spec_floor_log2(n) as nat) <= n,
        n <= u64::MAX ==> spec_floor_log2(n) <= 63,
    decreases n,
{
    lemma2_to64();
    if n > 1 {
        lemma_floor_log2_bounds(n / 2);
        let l = spec_floor_log2(n / 2);
        vstd::arithmetic::power2::lemma_pow2_unfold((l + 1) as nat);
        if n <= u64::MAX && l + 1 > 63 {
            lemma_pow2_strictly_increases(63, (l + 1) as nat);
            vstd::arithmetic::power2::lemma2_to64_rest();
        }
    }
}

/// The sample is never larger than the range it is drawn from.
proof fn lemma_sample_fits(n: int)
    requires
        1 <= n <= u64::MAX,
    ensures
        1 <= sample_size(n) <= n,
{
    lemma_floor_log2_bounds(n);
    lemma2_to64();
    let log = spec_floor_log2(n);
    let over: int = if log / 4 >= 1 {
        log / 4
    } else {
        1
    };
    let buckets: int = if log >= 1 {
        log
    } else {
        1
    };
    assert(sample_size(n) == over * buckets);
    assert(1 <= over * buckets) by (nonlinear_arith)
        requires
            1 <= over,
            1 <= buckets,
    ;
    if log < 4 {
        assert(over * buckets == buckets) by (nonlinear_arith)
            requires
                over == 1,
        ;
        if log >= 2 {
            lemma_pow2_strictly_increases(1, log as nat);
        }
        if log == 3 {
            assert(pow2(3) == 8);
        }
    } else if log < 8 {
        assert(over * buckets == buckets) by (nonlinear_arith)
            requires
                over == 1,
        ;
        if log > 4 {
            lemma_pow2_strictly_increases(4, log as nat);
        }
    } else if log < 12 {
        assert(over * buckets == 2 * buckets) by (nonlinear_arith)
            requires
                over == 2,
        ;
        if log > 8 {
            lemma_pow2_strictly_increases(8, log as nat);
        }
    } else {
        lemma_pow2_strictly_increases(10, log as nat);
        assert(over * buckets <= 15 * 63) by (nonlinear_arith)
            requires
                0 <= buckets <= 63,
                0 <= over <= 15,
        ;
    }
}

/// Neighbours in ascending order make a sorted sequence.
proof fn lemma_ascending_sorted(s: Seq<u64>)
    requires
        ascending_steps(s, s.len() as int),
    ensures
        is_sorted(s),
{
    assert forall|i: int, j: int| 0 <= i <= j < s.len() implies s[i] <= s[j] by {
        lemma_ascending_chain(s, i, j);
    }
}

proof fn lemma_ascending_chain(s: Seq<u64>, i: int, j: int)
    requires
        ascending_steps(s, s.len() as int),
        0 <= i <= j < s.len(),
    ensures
        s[i] <= s[j],
    decreases j - i,
{
    if i < j {
        lemma_ascending_chain(s, i, j - 1);
        assert(s[j - 1] <= s[j]);
    }
}

proof fn lemma_descending_chain(s: Seq<u64>, i: int, j: int)
    requires
        descending_steps(s, s.len() as int),
        0 <= i <= j < s.len(),
    ensures
        s[i] >= s[j],
    decreases j - i,
{
    if i < j {
        lemma_descending_chain(s, i, j - 1);
        assert(s[j - 1] >= s[j]);
    }
}

/// A sequence in descending order, read backwards, is sorted.
proof fn lemma_reverse_sorted(s: Seq<u64>)
    requires
        descending_steps(s, s.len() as int),
    ensures
        is_sorted(s.reverse()),
        is_permutation(s, s.reverse()),
{
    let r = s.reverse();
    assert forall|i: int, j: int| 0 <= i <= j < r.len() implies r[i] <= r[j] by {
        lemma_descending_chain(s, s.len() - 1 - j, s.len() - 1 - i);
    }
    s.lemma_reverse_to_multiset();
}

/// Exchanging two keys of a sequence keeps its keys.
pub proof fn lemma_swap_permutation(s: Seq<u64>, i: int, j: int)
    requires
        0 <= i < s.len(),
        0 <= j < s.len(),
    ensures
        is_permutation(s, s.update(i, s[j]).update(j, s[i])),
{
    broadcast use vstd::multiset::group_multiset_axioms;

    let t = s.update(i, s[j]);
    let u = t.update(j, s[i]);
    vstd::seq_lib::to_multiset_update(s, i, s[j]);
    vstd::seq_lib::to_multiset_update(t, j, s[i]);
    assert forall|v: u64| s.to_multiset().count(v) == u.to_multiset().count(v) by {
        vstd::seq_lib::to_multiset_contains(s, s[i]);
        vstd::seq_lib::to_multiset_contains(s, s[j]);
        assert(s.contains(s[i]));
        assert(s.contains(s[j]));
    }
    assert(s.to_multiset() =~= u.to_multiset());
}

/// One more key is covered once its differing bits are added.
proof fn lemma_cover_step(key: u64, other: u64, reference: u64, differing: u64)
    requires
        covered(other, reference, differing),
    ensures
        covered(key, reference, differing | (reference ^ key)),
        covered(other, reference, differing | (reference ^ key)),
        covered(reference, reference, differing),
{
    let d = differing;
    let e = differing | (reference ^ key);
    assert((key ^ reference) & !e == 0) by (bit_vector)
        requires
            e == d | (reference ^ key),
    ;
    assert((other ^ reference) & !e == 0) by (bit_vector)
        requires
            e == d | (reference ^ key),
            (other ^ reference) & !d == 0,
    ;
    assert((reference ^ reference) & !d == 0) by (bit_vector);
}

/// A key that no differing bit tells from the reference is the reference.
proof fn lemma_cover_none(key: u64, reference: u64)
    requires
        covered(key, reference, 0),
    ensures
        key == reference,
{
    assert(key == reference) by (bit_vector)
        requires
            (key ^ reference) & !0u64 == 0,
    ;
}

/// Two keys that differ have a differing bit.
proof fn lemma_differing_not_zero(key: u64, reference: u64, differing: u64)
    requires
        covered(key, reference, differing),
        key != reference,
    ensures
        differing != 0,
{
    if differing == 0 {
        lemma_cover_none(key, reference);
    }
}

/// The levels of the differing bits are in order, and a covered key shares
/// with the reference all digits outside them.
proof fn lemma_levels_cover(key: u64, reference: u64, differing: u64)
    requires
        covered(key, reference, differing),
        differing != 0,
    ensures
        0 <= levels_of(differing).0 < levels_of(differing).1 <= 8,
        high_part(key, levels_of(differing).0) == high_part(reference, levels_of(differing).0),
        low_part(key, levels_of(differing).1) == low_part(reference, levels_of(differing).1),
{
    axiom_u64_leading_zeros(differing);
    axiom_u64_trailing_zeros(differing);
    let d = differing;
    let lz = u64_leading_zeros(d);
    let tz = u64_trailing_zeros(d) as int;
    assert(0 <= lz <= 63);
    assert(0 <= tz <= 63);
    let top = (63 - lz) as u64;
    assert((d >> top) & 1u64 != 0u64);
    if top < tz {
        assert((d >> top) & 1u64 == 0u64);
    }
    assert(lz + tz <= 63);
    let lb = lz / 8;
    let le = 8 - tz / 8;
    let s = (56 - 8 * lb) as u64;
    let hs = (64 - lz) as u64;
    assert(d >> hs == 0);
    assert((key >> s) >> 8 == (reference >> s) >> 8) by (bit_vector)
        requires
            (key ^ reference) & !d == 0,
            d >> hs == 0,
            hs <= s + 8,
            s <= 56,
            hs <= 64,
    ;
    let m = (64 - 8 * le) as u64;
    let ts = (64 - tz) as u64;
    assert(d << ts == 0);
    assert(key & !(0xffff_ffff_ffff_ffffu64 << m) == reference & !(0xffff_ffff_ffff_ffffu64 << m))
        by (bit_vector)
        requires
            (key ^ reference) & !d == 0,
            d << ts == 0,
            m + ts <= 64,
            m <= 56,
            ts <= 64,
    ;
}

/// The logarithm to base 2 of `n`, rounded down.
pub fn floor_log2(n: usize) -> (log: usize)
    requires
        n >= 1,
    ensures
        log == spec_floor_log2(n as int),
        log <= 63,
{
    let mut log: usize = 0;
    let mut rest = n;
    proof {
        lemma_floor_log2_bounds(n as int);
    }
    while rest > 1
        invariant
            rest >= 1,
            log + spec_floor_log2(rest as int) == spec_floor_log2(n as int),
            spec_floor_log2(n as int) <= 63,
            spec_floor_log2(rest as int) >= 0,
        decreases rest,
    {
        proof {
            lemma_floor_log2_bounds(rest as int / 2);
        }
        rest = rest / 2;
        log += 1;
    }
    log
}

/// Reverses the order of the keys of `arr`.
pub fn reverse_keys(arr: &mut [u64])
    ensures
        final(arr)@ == old(arr)@.reverse(),
{
    let n = arr.len();
    let mut i: usize = 0;
    while i < n / 2
        invariant
            n == arr@.len(),
            n == old(arr)@.len(),
            i <= n / 2,
            forall|p: int| 0 <= p < i ==> arr@[p] == old(arr)@[n - 1 - p],
            forall|p: int| n - i <= p < n ==> arr@[p] == old(arr)@[n - 1 - p],
            forall|p: int| i <= p < n - i ==> arr@[p] == old(arr)@[p],
        decreases n / 2 - i,
    {
        let front = arr[i];
        let back = arr[n - 1 - i];
        arr[i] = back;
        arr[n - 1 - i] = front;
        i += 1;
    }
    proof {
        assert(arr@ =~= old(arr)@.reverse());
    }
}

/// The keys `s` with the keys at the places `i` and `j` exchanged.
pub open spec fn exchanged(s: Seq<u64>, i: int, j: int) -> Seq<u64> {
    s.update(i, s[j]).update(j, s[i])
}

/// The keys `s` once the first `n` places of the sample are filled: place
/// `k`, in its turn, has exchanged its key with the key at place `draws[k]`.
pub open spec fn sample_drawn(s: Seq<u64>, draws: Seq<usize>, n: int) -> Seq<u64>
    decreases n,
{
    if n <= 0 {
        s
    } else {
        exchanged(sample_drawn(s, draws, n - 1), n - 1, draws[n - 1] as int)
    }
}

/// The keys `s` once the exchanges of the first `n` places of the sample are
/// taken back, the last one first.
pub open spec fn sample_undone(s: Seq<u64>, draws: Seq<usize>, n: int) -> Seq<u64>
    decreases n,
{
    if n <= 0 {
        s
    } else {
        sample_undone(exchanged(s, n - 1, draws[n - 1] as int), draws, n - 1)
    }
}

/// `draws` can be the draws for a sample of `n` out of `len` keys: the draw
/// for place `k` is a place from `k` on.
pub open spec fn draws_in_range(draws: Seq<usize>, n: int, len: int) -> bool {
    &&& draws.len() == n
    &&& forall|k: int| 0 <= k < n ==> k <= #[trigger] draws[k] < len
}

/// `after` holds the keys `before` with a sample of `n` keys brought to the
/// front, for some draws.
pub open spec fn sample_in_front(before: Seq<u64>, after: Seq<u64>, n: int) -> bool {
    exists|draws: Seq<usize>| #[trigger]
        draws_in_range(draws, n, before.len() as int) && after == sample_drawn(before, draws, n)
}

/// The first places of a sample depend on the first draws only.
proof fn lemma_sample_drawn_prefix(s: Seq<u64>, draws: Seq<usize>, more: Seq<usize>, n: int)
    requires
        0 <= n <= draws.len(),
        n <= more.len(),
        forall|k: int| 0 <= k < n ==> draws[k] == more[k],
    ensures
        sample_drawn(s, draws, n) == sample_drawn(s, more, n),
    decreases n,
{
    if n > 0 {
        lemma_sample_drawn_prefix(s, draws, more, n - 1);
    }
}

/// Drawing a sample keeps the number of keys.
proof fn lemma_sample_drawn_len(s: Seq<u64>, draws: Seq<usize>, n: int)
    requires
        0 <= n <= draws.len(),
        forall|k: int| 0 <= k < n ==> k <= #[trigger] draws[k] < s.len(),
    ensures
        sample_drawn(s, draws, n).len() == s.len(),
    decreases n,
{
    if n > 0 {
        lemma_sample_drawn_len(s, draws, n - 1);
    }
}

/// Taking the exchanges of a sample back gives the keys as they stood before
/// the sample was drawn.
pub proof fn lemma_sample_undone(s: Seq<u64>, draws: Seq<usize>, n: int)
    requires
        draws_in_range(draws, draws.len() as int, s.len() as int),
        0 <= n <= draws.len(),
    ensures
        sample_undone(sample_drawn(s, draws, n), draws, n) == s,
    decreases n,
{
    if n > 0 {
        let before = sample_drawn(s, draws, n - 1);
        lemma_sample_drawn_len(s, draws, n - 1);
        lemma_sample_undone(s, draws, n - 1);
        let d = draws[n - 1] as int;
        assert(n - 1 <= d < s.len());
        assert(exchanged(exchanged(before, n - 1, d), n - 1, d) =~= before);
    }
}

/// Fills place `write` of the sample with the key that was drawn: exchanges
/// the key at `write` with the key at `drawn`.
pub fn place_sample_key(arr: &mut [u64], write: usize, drawn: usize)
    requires
        write < old(arr)@.len(),
        drawn < old(arr)@.len(),
    ensures
        final(arr)@ == exchanged(old(arr)@, write as int, drawn as int),
{
    let first = arr[write];
    let second = arr[drawn];
    arr[write] = second;
    arr[drawn] = first;
    proof {
        assert(arr@ =~= exchanged(old(arr)@, write as int, drawn as int));
    }
}

/// Brings a random sample of `num_samples` keys to the front of `arr` and
/// returns the draws: for every place of the sample in turn, a key is drawn
/// among those from that place on and exchanged with the key at that place.
/// Which keys are drawn is up to the generator.
pub fn draw_sample(arr: &mut [u64], num_samples: usize) -> (draws: Vec<usize>)
    requires
        num_samples <= old(arr)@.len(),
    ensures
        draws_in_range(draws@, num_samples as int, old(arr)@.len() as int),
        final(arr)@ == sample_drawn(old(arr)@, draws@, num_samples as int),
        is_permutation(old(arr)@, final(arr)@),
        final(arr)@.len() == old(arr)@.len(),
{
    let len = arr.len();
    let mut write: usize = 0;
    let mut rng = seeded_generator(SAMPLE_SEED);
    let mut draws: Vec<usize> = Vec::new();
    while write < num_samples
        invariant
            len == arr@.len(),
            len == old(arr)@.len(),
            write <= num_samples <= len,
            is_permutation(old(arr)@, arr@),
            draws_in_range(draws@, write as int, len as int),
            arr@ == sample_drawn(old(arr)@, draws@, write as int),
        decreases num_samples - write,
    {
        let sample = draw_index(&mut rng, write, len);
        let ghost before = arr@;
        let ghost drawn_before = draws@;
        place_sample_key(arr, write, sample);
        draws.push(sample);
        proof {
            lemma_swap_permutation(before, write as int, sample as int);
            lemma_sample_drawn_prefix(old(arr)@, drawn_before, draws@, write as int);
            assert(draws@[write as int] == sample);
        }
        write += 1;
    }
    draws
}

/// Brings a random sample of `num_samples` keys to the front of `arr`: for
/// every place of the sample in turn, a key is drawn among those from that
/// place on and exchanged with the key at that place.  Which keys are drawn
/// is up to the generator.
pub fn select_sample_keys(arr: &mut [u64], num_samples: usize)
    requires
        num_samples <= old(arr)@.len(),
    ensures
        sample_in_front(old(arr)@, final(arr)@, num_samples as int),
        is_permutation(old(arr)@, final(arr)@),
        final(arr)@.len() == old(arr)@.len(),
{
    let draws = draw_sample(arr, num_samples);
    proof {
        assert(draws_in_range(draws@, num_samples as int, old(arr)@.len() as int));
    }
}

/// Takes the exchanges of a sample back, the last one first, so that the keys
/// stand where they stood before the sample with these draws was taken.
pub fn restore_sample(arr: &mut [u64], draws: &Vec<usize>)
    requires
        draws_in_range(draws@, draws@.len() as int, old(arr)@.len() as int),
    ensures
        final(arr)@ == sample_undone(old(arr)@, draws@, draws@.len() as int),
        final(arr)@.len() == old(arr)@.len(),
{
    let mut left: usize = draws.len();
    while left > 0
        invariant
            left <= draws@.len(),
            arr@.len() == old(arr)@.len(),
            draws_in_range(draws@, draws@.len() as int, arr@.len() as int),
            sample_undone(arr@, draws@, left as int) == sample_undone(
                old(arr)@,
                draws@,
                draws@.len() as int,
            ),
        decreases left,
    {
        left -= 1;
        proof {
            assert(left <= draws@[left as int] < arr@.len());
        }
        place_sample_key(arr, left, draws[left]);
    }
}

/// Number of keys in the sample of a range of `len` keys.
pub fn sample_count(len: usize) -> (count: usize)
    requires
        len >= 1,
    ensures
        count == sample_size(len as int),
        1 <= count <= len,
{
    let nlogn = floor_log2(len);
    let oversampling: usize = if nlogn / 4 >= 1 {
        nlogn / 4
    } else {
        1
    };
    let buckets: usize = if nlogn >= 1 {
        nlogn
    } else {
        1
    };
    proof {
        lemma_sample_fits(len as int);
        assert(oversampling * buckets <= 15 * 63) by (nonlinear_arith)
            requires
                oversampling <= 15,
                buckets <= 63,
        ;
    }
    oversampling * buckets
}

/// The levels in which any of the first `count` keys of `arr` differs from
/// the first key.
pub fn front_levels(arr: &[u64], count: usize) -> (levels: (usize, usize))
    requires
        1 <= count <= arr@.len(),
    ensures
        (levels.0 as int, levels.1 as int) == levels_of(differing_bits(arr@, count as int)),
        levels.0 <= 8,
        levels.1 <= 8,
{
    let reference = arr[0];
    let mut differing: u64 = 0;
    let mut i: usize = 1;
    while i < count
        invariant
            1 <= i,
            1 <= count <= arr@.len(),
            reference == arr@[0],
            differing == differing_bits(arr@, if i <= count {
                i as int
            } else {
                count as int
            }),
        decreases count - i,
    {
        let xor = reference ^ arr[i];
        differing = differing | xor;
        i += 1;
    }
    let lz = differing.leading_zeros() as usize;
    let tz = differing.trailing_zeros() as usize;
    proof {
        axiom_u64_leading_zeros(differing);
        axiom_u64_trailing_zeros(differing);
    }
    (lz / 8, 8 - tz / 8)
}

/// The levels that a sample of the keys of `arr` suggests.  The sample is
/// brought to the front of `arr`.
pub fn sample_levels_keys(arr: &mut [u64]) -> (levels: (usize, usize))
    requires
        old(arr)@.len() >= 1,
    ensures
        sample_in_front(old(arr)@, final(arr)@, sample_size(old(arr)@.len() as int)),
        is_permutation(old(arr)@, final(arr)@),
        final(arr)@.len() == old(arr)@.len(),
        (levels.0 as int, levels.1 as int) == levels_of(
            differing_bits(final(arr)@, sample_size(old(arr)@.len() as int)),
        ),
        levels.0 <= 8,
        levels.1 <= 8,
{
    let num_samples = sample_count(arr.len());
    select_sample_keys(arr, num_samples);
    front_levels(arr, num_samples)
}

/// The levels that are settled for the keys `s` after a sample has suggested
/// the levels `sampled`.  A sample that finds differences in the first and in
/// the last level settles all levels.  Else all keys are looked at: keys that
/// are sorted, forwards or backwards, need no level, and others need the
/// levels in which any of them differs from the first.
pub open spec fn settled_levels(s: Seq<u64>, sampled: (usize, usize)) -> (int, int) {
    if sampled == (0usize, 8usize) {
        (0, 8)
    } else if is_sorted(s) || is_sorted(s.reverse()) {
        (0, 0)
    } else {
        levels_of(differing_bits(s, s.len() as int))
    }
}

/// The keys `s` as they stand once their levels are settled: keys that were
/// found to be sorted backwards have been reversed.
pub open spec fn settled_keys(s: Seq<u64>, sampled: (usize, usize)) -> Seq<u64> {
    if sampled != (0usize, 8usize) && !is_sorted(s) && is_sorted(s.reverse()) {
        s.reverse()
    } else {
        s
    }
}

/// Keys with a step down between neighbours, whose first key is not above
/// the last, are sorted neither forwards nor backwards.
proof fn lemma_step_down(s: Seq<u64>, j: int)
    requires
        1 <= j < s.len(),
        s[j - 1] > s[j],
        s[0] <= s[s.len() - 1],
    ensures
        !is_sorted(s),
        !is_sorted(s.reverse()),
{
    let r = s.reverse();
    let n = s.len() as int;
    if is_sorted(r) {
        assert(r[n - j] <= r[n - 1]);
        assert(r[0] <= r[n - 1 - j]);
    }
}

/// Keys with a step up between neighbours are not sorted backwards.
proof fn lemma_step_up(s: Seq<u64>, j: int)
    requires
        1 <= j < s.len(),
        s[j - 1] < s[j],
    ensures
        !is_sorted(s.reverse()),
{
    let r = s.reverse();
    let n = s.len() as int;
    if is_sorted(r) {
        assert(r[n - 1 - j] <= r[n - j]);
    }
}

/// Settles the levels at which `arr` has to be partitioned, after a sample of
/// its keys has suggested the levels `sampled`.
pub fn settle_levels(arr: &mut [u64], sampled: (usize, usize)) -> (levels: (usize, usize))
    requires
        old(arr)@.len() >= 1,
    ensures
        (levels.0 as int, levels.1 as int) == settled_levels(old(arr)@, sampled),
        final(arr)@ == settled_keys(old(arr)@, sampled),
        levels == (0usize, 0usize) ==> is_sorted(final(arr)@),
        levels != (0usize, 0usize) ==> levels.0 < levels.1 <= 8 && keys_agree(
            final(arr)@,
            levels.0 as int,
            levels.1 as int,
        ),
{
    let len = arr.len();
    let (level_begin, level_end) = sampled;
    if level_begin != 0 || level_end != 8 {
        let reference = arr[0];
        let mut differing: u64 = 0;
        proof {
            assert((reference ^ reference) & !0u64 == 0) by (bit_vector);
        }
        if arr[0] <= arr[len - 1] {
            let mut sorted = true;
            let mut i: usize = 1;
            while i < len
                invariant
                    1 <= i <= len,
                    len == arr@.len(),
                    reference == arr@[0],
                    differing == differing_bits(arr@, i as int),
                    sorted == ascending_steps(arr@, i as int),
                    forall|j: int| 0 <= j < i ==> covered(#[trigger] arr@[j], reference, differing),
                decreases len - i,
            {
                let ghost d0 = differing;
                differing = differing | (reference ^ arr[i]);
                sorted = sorted && arr[i - 1] <= arr[i];
                proof {
                    assert forall|j: int| 0 <= j < i + 1 implies covered(
                        #[trigger] arr@[j],
                        reference,
                        differing,
                    ) by {
                        if j < i {
                            lemma_cover_step(arr@[i as int], arr@[j], reference, d0);
                        } else {
                            lemma_cover_step(arr@[i as int], arr@[0], reference, d0);
                        }
                    }
                }
                i += 1;
            }
            if sorted {
                proof {
                    lemma_ascending_sorted(arr@);
                }
                return (0, 0);
            }
            proof {
                let j = choose|j: int| 1 <= j < len && !(arr@[j - 1] <= #[trigger] arr@[j]);
                lemma_step_down(arr@, j);
                if arr@[j] != reference {
                    lemma_differing_not_zero(arr@[j], reference, differing);
                } else {
                    lemma_differing_not_zero(arr@[j - 1], reference, differing);
                }
            }
        } else {
            let mut reverse_sorted = true;
            let mut i: usize = 1;
            while i < len
                invariant
                    1 <= i <= len,
                    len == arr@.len(),
                    reference == arr@[0],
                    differing == differing_bits(arr@, i as int),
                    reverse_sorted == descending_steps(arr@, i as int),
                    forall|j: int| 0 <= j < i ==> covered(#[trigger] arr@[j], reference, differing),
                decreases len - i,
            {
                let ghost d0 = differing;
                differing = differing | (reference ^ arr[i]);
                reverse_sorted = reverse_sorted && arr[i - 1] >= arr[i];
                proof {
                    assert forall|j: int| 0 <= j < i + 1 implies covered(
                        #[trigger] arr@[j],
                        reference,
                        differing,
                    ) by {
                        if j < i {
                            lemma_cover_step(arr@[i as int], arr@[j], reference, d0);
                        } else {
                            lemma_cover_step(arr@[i as int], arr@[0], reference, d0);
                        }
                    }
                }
                i += 1;
            }
            if reverse_sorted {
                let ghost before = arr@;
                reverse_keys(arr);
                proof {
                    lemma_reverse_sorted(before);
                    broadcast use vstd::multiset::group_multiset_axioms;

                }
                return (0, 0);
            }
            proof {
                let j = choose|j: int| 1 <= j < len && !(arr@[j - 1] >= #[trigger] arr@[j]);
                lemma_step_up(arr@, j);
                lemma_differing_not_zero(arr@[len - 1], reference, differing);
            }
        }
        let lz = differing.leading_zeros() as usize;
        let tz = differing.trailing_zeros() as usize;
        proof {
            let lb = levels_of(differing).0;
            let le = levels_of(differing).1;
            lemma_levels_cover(reference, reference, differing);
            assert forall|a: int, b: int| 0 <= a < len && 0 <= b < len implies high_part(
                #[trigger] arr@[a],
                lb,
            ) == high_part(#[trigger] arr@[b], lb) && low_part(arr@[a], le) == low_part(
                arr@[b],
                le,
            ) by {
                lemma_levels_cover(arr@[a], reference, differing);
                lemma_levels_cover(arr@[b], reference, differing);
            }
        }
        (lz / 8, 8 - tz / 8)
    } else {
        proof {
            lemma_keys_agree_full(arr@);
        }
        (level_begin, level_end)
    }
}

/// The levels that the sample at the front of `drawn` suggests.
pub open spec fn sampled_levels(drawn: Seq<u64>) -> (usize, usize) {
    let levels = levels_of(differing_bits(drawn, sample_size(drawn.len() as int)));
    (levels.0 as usize, levels.1 as usize)
}

/// The levels `levels` and the keys `after` are what settling the levels of
/// the keys `before` gives for some sample: `drawn` holds the keys with the
/// sample in front, and the levels that the sample suggests decide whether
/// all keys are looked at.
pub open spec fn levels_settled(before: Seq<u64>, levels: (usize, usize), after: Seq<u64>) -> bool {
    exists|drawn: Seq<u64>|
        #[trigger] is_permutation(before, drawn) && sample_in_front(
            before,
            drawn,
            sample_size(before.len() as int),
        ) && (levels.0 as int, levels.1 as int) == settled_levels(before, sampled_levels(drawn))
            && after == settled_keys(before, sampled_levels(drawn))
}

/// All keys of `s` share their first byte, or all share their last byte.
pub open spec fn shares_a_byte(s: Seq<u64>) -> bool {
    keys_agree(s, 1, 8) || keys_agree(s, 0, 7)
}

/// The levels that a sample suggests when it finds no difference.
pub open spec fn no_difference() -> (usize, usize) {
    (8usize, 0usize)
}

/// Bits that are zero in the first byte leave the first level out, and bits
/// that are zero in the last byte leave the last level out.
proof fn lemma_narrow_bits(differing: u64)
    ensures
        differing >> 56 == 0 ==> levels_of(differing).0 >= 1,
        differing & 0xff == 0 ==> levels_of(differing).1 <= 7,
{
    axiom_u64_leading_zeros(differing);
    axiom_u64_trailing_zeros(differing);
    let lz = u64_leading_zeros(differing);
    let tz = u64_trailing_zeros(differing) as int;
    if differing >> 56 == 0 && lz < 8 {
        let top = (63 - lz) as u64;
        assert((differing >> top) & 1u64 != 0u64);
        assert((differing >> top) & 1u64 == 0u64) by (bit_vector)
            requires
                differing >> 56 == 0,
                56 <= top <= 63,
        ;
    }
    if differing & 0xff == 0 && tz < 8 {
        let low = tz as u64;
        assert((differing >> low) & 1u64 == 1u64);
        assert((differing >> low) & 1u64 == 0u64) by (bit_vector)
            requires
                differing & 0xff == 0,
                low < 8,
        ;
    }
}

/// The bits in which keys differ that share a byte are zero in that byte.
proof fn lemma_shared_byte_bits(before: Seq<u64>, drawn: Seq<u64>, k: int)
    requires
        is_permutation(before, drawn),
        0 <= k <= drawn.len(),
    ensures
        keys_agree(before, 1, 8) ==> differing_bits(drawn, k) >> 56 == 0,
        keys_agree(before, 0, 7) ==> differing_bits(drawn, k) & 0xff == 0,
    decreases k,
{
    if k <= 1 {
        assert(0u64 >> 56 == 0) by (bit_vector);
        assert(0u64 & 0xff == 0) by (bit_vector);
    } else {
        lemma_shared_byte_bits(before, drawn, k - 1);
        let a = drawn[0];
        let b = drawn[k - 1];
        let d = differing_bits(drawn, k - 1);
        vstd::seq_lib::to_multiset_contains(drawn, a);
        vstd::seq_lib::to_multiset_contains(drawn, b);
        vstd::seq_lib::to_multiset_contains(before, a);
        vstd::seq_lib::to_multiset_contains(before, b);
        assert(drawn.contains(a));
        assert(drawn.contains(b));
        let i = choose|i: int| 0 <= i < before.len() && before[i] == a;
        let j = choose|j: int| 0 <= j < before.len() && before[j] == b;
        if keys_agree(before, 1, 8) {
            assert(high_part(before[i], 1) == high_part(before[j], 1));
            assert((d | (a ^ b)) >> 56 == 0) by (bit_vector)
                requires
                    d >> 56 == 0,
                    (a >> 48) >> 8 == (b >> 48) >> 8,
            ;
        }
        if keys_agree(before, 0, 7) {
            assert(low_part(before[i], 7) == low_part(before[j], 7));
            assert((d | (a ^ b)) & 0xff == 0) by (bit_vector)
                requires
                    d & 0xff == 0,
                    a & !(0xffff_ffff_ffff_ffffu64 << 8) == b & !(0xffff_ffff_ffff_ffffu64 << 8),
            ;
        }
    }
}

/// A sample of keys that share a byte never suggests all levels, whatever
/// is drawn.
pub proof fn lemma_shared_byte_narrows(before: Seq<u64>, drawn: Seq<u64>)
    requires
        1 <= before.len() <= usize::MAX,
        is_permutation(before, drawn),
        shares_a_byte(before),
    ensures
        sampled_levels(drawn) != (0usize, 8usize),
        settled_levels(before, sampled_levels(drawn)) == settled_levels(before, no_difference()),
        settled_keys(before, sampled_levels(drawn)) == settled_keys(before, no_difference()),
{
    crate::model::lemma_permutation_len(before, drawn);
    lemma_sample_fits(drawn.len() as int);
    let k = sample_size(drawn.len() as int);
    lemma_shared_byte_bits(before, drawn, k);
    lemma_narrow_bits(differing_bits(drawn, k));
    axiom_u64_leading_zeros(differing_bits(drawn, k));
    axiom_u64_trailing_zeros(differing_bits(drawn, k));
}

/// Settles the levels at which `arr` has to be partitioned.  A sample of the
/// keys is looked at first; the keys stand afterwards where they stood.  A
/// sample that finds differences in the first and in the last level settles
/// all levels.  Else all keys are looked at: `(0, 0)` is returned where
/// nothing is left to do, because `arr` is sorted, or was sorted backwards
/// and has been reversed; else the keys of `arr` differ only in the levels
/// from the first up to the second level returned.  Of an empty `arr` the
/// levels are `(0, 0)`.
pub fn get_levels_keys(arr: &mut [u64]) -> (levels: (usize, usize))
    ensures
        old(arr)@.len() == 0 ==> levels == (0usize, 0usize) && final(arr)@ == old(arr)@,
        old(arr)@.len() >= 1 ==> levels_settled(old(arr)@, levels, final(arr)@),
        old(arr)@.len() >= 1 && shares_a_byte(old(arr)@) ==> (levels.0 as int, levels.1 as int)
            == settled_levels(old(arr)@, no_difference()) && final(arr)@ == settled_keys(
            old(arr)@,
            no_difference(),
        ),
        is_permutation(old(arr)@, final(arr)@),
        final(arr)@.len() == old(arr)@.len(),
        levels == (0usize, 0usize) ==> is_sorted(final(arr)@),
        levels != (0usize, 0usize) ==> levels.0 < levels.1 <= 8 && keys_agree(
            final(arr)@,
            levels.0 as int,
            levels.1 as int,
        ),
{
    let len = arr.len();
    if len == 0 {
        return (0, 0);
    }
    let count = sample_count(len);
    let draws = draw_sample(arr, count);
    let ghost drawn = arr@;
    let sampled = front_levels(arr, count);
    restore_sample(arr, &draws);
    proof {
        lemma_sample_undone(old(arr)@, draws@, count as int);
        assert(arr@ == old(arr)@);
        assert(draws_in_range(draws@, count as int, old(arr)@.len() as int));
        assert(sample_in_front(old(arr)@, drawn, sample_size(old(arr)@.len() as int)));
        assert(sampled == sampled_levels(drawn));
    }
    let levels = settle_levels(arr, sampled);
    proof {
        if arr@ != old(arr)@ {
            old(arr)@.lemma_reverse_to_multiset();
        }
        assert(is_permutation(old(arr)@, drawn));
        if shares_a_byte(old(arr)@) {
            lemma_shared_byte_narrows(old(arr)@, drawn);
        }
    }
    levels
}

impl<'a> Task<'a> {
    /// Settles the levels of the task, as `get_levels_keys` settles those of
    /// its keys.  Returns `false` where nothing is left to do, because the
    /// task is empty or its keys are sorted already or were sorted backwards
    /// and have been reversed; the levels of the task then stay as they were.
    /// Else the levels of the task are set to the levels that were settled.
    pub fn sample(&mut self) -> (work: bool)
        ensures
            old(self).arr@.len() == 0 ==> !work && final(self).arr@ == old(self).arr@,
            old(self).arr@.len() >= 1 ==> exists|levels: (usize, usize)|
                #[trigger] levels_settled(old(self).arr@, levels, final(self).arr@) && work == (
                levels != (0usize, 0usize)) && (work ==> final(self).level == levels.0
                    && final(self).level_end == levels.1),
            old(self).arr@.len() >= 1 && shares_a_byte(old(self).arr@) ==> final(self).arr@
                == settled_keys(old(self).arr@, no_difference()) && work == (settled_levels(
                old(self).arr@,
                no_difference(),
            ) != (0int, 0int)) && (work ==> (final(self).level as int, final(self).level_end as int)
                == settled_levels(old(self).arr@, no_difference())),
            is_permutation(old(self).arr@, final(self).arr@),
            !work ==> is_sorted(final(self).arr@) && final(self).level == old(self).level && final(self).level_end == old(self).level_end,
            work ==> final(self).level < final(self).level_end <= 8 && keys_agree(
                final(self).arr@,
                final(self).level as int,
                final(self).level_end as int,
            ),
    {
        let levels = self.sequential_get_levels();
        let ghost settled = self.arr@;
        if levels.0 == 0 && levels.1 == 0 {
            return false;
        }
        self.level_end = levels.1;
        self.level = levels.0;
        proof {
            assert(self.arr@ == settled);
            if old(self).arr@.len() >= 1 {
                assert(levels_settled(old(self).arr@, levels, self.arr@));
            }
        }
        true
    }

    /// The levels at which the task has to be partitioned, as
    /// `get_levels_keys` settles them, or `(0, 0)` where nothing is left to do.
    pub fn sequential_get_levels(&mut self) -> (levels: (usize, usize))
        ensures
            old(self).arr@.len() == 0 ==> levels == (0usize, 0usize) && final(self).arr@ == old(self).arr@,
            old(self).arr@.len() >= 1 ==> levels_settled(old(self).arr@, levels, final(self).arr@),
            old(self).arr@.len() >= 1 && shares_a_byte(old(self).arr@) ==> (
            levels.0 as int,
            levels.1 as int,
        ) == settled_levels(old(self).arr@, no_difference()) && final(self).arr@ == settled_keys(
                old(self).arr@,
                no_difference(),
            ),
            is_permutation(old(self).arr@, final(self).arr@),
            final(self).level == old(self).level,
            final(self).level_end == old(self).level_end,
            levels == (0usize, 0usize) ==> is_sorted(final(self).arr@),
            levels != (0usize, 0usize) ==> levels.0 < levels.1 <= 8 && keys_agree(
                final(self).arr@,
                levels.0 as int,
                levels.1 as int,
            ),
    {
        get_levels_keys(self.arr)
    }

    /// The levels that a sample of the keys suggests.  The sample is brought
    /// to the front of the task.
    pub fn sample_levels(&mut self) -> (levels: (usize, usize))
        requires
            old(self).arr@.len() >= 1,
        ensures
            sample_in_front(
                old(self).arr@,
                final(self).arr@,
                sample_size(old(self).arr@.len() as int),
            ),
            is_permutation(old(self).arr@, final(self).arr@),
            final(self).level == old(self).level,
            final(self).level_end == old(self).level_end,
            (levels.0 as int, levels.1 as int) == levels_of(
                differing_bits(final(self).arr@, sample_size(old(self).arr@.len() as int)),
            ),
    {
        sample_levels_keys(self.arr)
    }

    /// Sets the levels of the task from its largest key alone, without moving
    /// a key: the first level is the number of leading bytes that are zero in
    /// the largest key, the last level is the last level of a key.
    pub fn sample_untouched(&mut self)
        requires
            old(self).arr@.len() >= 1,
        ensures
            final(self).arr@ == old(self).arr@,
            final(self).level == u64_leading_zeros(crate::rolling_sort::max_key(old(self).arr@)) / 8,
            final(self).level_end == 8,
    {
        let len = self.arr.len();
        let mut max: u64 = 0;
        let mut i: usize = 0;
        while i < len
            invariant
                i <= len,
                len == self.arr@.len(),
                self.arr@ == old(self).arr@,
                self.level == old(self).level,
                self.level_end == old(self).level_end,
                max == crate::rolling_sort::max_key(self.arr@.subrange(0, i as int)),
            decreases len - i,
        {
            let key = self.arr[i];
            proof {
                assert(self.arr@.subrange(0, i + 1).drop_last() =~= self.arr@.subrange(0, i as int));
            }
            if key > max {
                max = key;
            }
            i += 1;
        }
        proof {
            assert(self.arr@.subrange(0, len as int) =~= self.arr@);
            axiom_u64_leading_zeros(max);
        }
        let lz = max.leading_zeros();
        self.level = (lz / 8) as usize;
        self.level_end = 8;
    }

    /// Brings a random sample of `num_samples` keys to the front of the task:
    /// for every place of the sample in turn, a key is drawn among those from
    /// that place on and exchanged with the key at that place.
    pub fn select_sample(&mut self, num_samples: usize)
        requires
            num_samples <= old(self).arr@.len(),
        ensures
            sample_in_front(old(self).arr@, final(self).arr@, num_samples as int),
            is_permutation(old(self).arr@, final(self).arr@),
            final(self).arr@.len() == old(self).arr@.len(),
            final(self).level == old(self).level,
            final(self).level_end == old(self).level_end,
    {
        select_sample_keys(self.arr, num_samples);
    }
}

} // verus!
