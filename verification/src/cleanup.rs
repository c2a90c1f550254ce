//! Cleanup: after the block permutation every bucket holds its full blocks in
//! block-aligned slots.  The keys that are still staged fill the gaps between
//! those slots and the exact boundaries of the bucket; a block that hangs over
//! the end of the bucket, or sits in the overflow buffer, is moved into the
//! gap at its front.

use crate::config::{BLOCKSIZE, K, THRESHOLD};
use crate::layout::{lemma_find_last_slot_owner, lemma_last_slot_owner_unique, lemma_region_bounds, lemma_regions_ordered};
use crate::model::{
    align_down, align_up, all_in_bucket, is_permutation, is_sorted,
    lemma_all_in_bucket_permutation, lemma_concat_multiset, lemma_prefix_sum_monotone,
    lemma_slots_hold_full_blocks, prefix_sum,
};
use crate::parts::{concat_parts, lemma_parts_add, lemma_parts_of_ranges, lemma_parts_update};
use crate::layout::min_int;
use crate::permutation::{holds_at, lemma_assemble, lemma_holds_kept, lemma_same_outside_chain, move_keys, same_outside, write_keys};
use crate::sorter::{IPS2RaSorter, Task, NUM_BOUNDARIES};
use crate::steps::ovf_part;
use crate::store::KeyStore;
use vstd::prelude::*;

verus! {

/// The keys of four pieces put together are the keys of the pieces.
pub proof fn lemma_count_four(a: Seq<u64>, b: Seq<u64>, c: Seq<u64>, d: Seq<u64>, v: u64)
    ensures
        (a + b + c + d).to_multiset().count(v) == a.to_multiset().count(v) + b.to_multiset().count(
            v,
        ) + c.to_multiset().count(v) + d.to_multiset().count(v),
{
    broadcast use vstd::multiset::group_multiset_axioms;

    lemma_concat_multiset(a + b + c, d);
    lemma_concat_multiset(a + b, c);
    lemma_concat_multiset(a, b);
    assert((a + b + c).to_multiset().add(d.to_multiset()).count(v) == (a
        + b + c).to_multiset().count(v) + d.to_multiset().count(v));
    assert((a + b).to_multiset().add(c.to_multiset()).count(v) == (a + b).to_multiset().count(v)
        + c.to_multiset().count(v));
    assert(a.to_multiset().add(b.to_multiset()).count(v) == a.to_multiset().count(v)
        + b.to_multiset().count(v));
}

/// Four pieces hold the same keys in whatever order they are put together.
pub proof fn lemma_four_pieces(
    a: Seq<u64>,
    b: Seq<u64>,
    c: Seq<u64>,
    d: Seq<u64>,
    w: Seq<u64>,
    x: Seq<u64>,
    y: Seq<u64>,
    z: Seq<u64>,
)
    requires
        (w == a && x == b && y == c && z == d) || (w == b && x == a && y == c && z == d) || (w == c
            && x == a && y == b && z == d) || (w == b && x == c && y == a && z == d) || (w == a
            && x == c && y == b && z == d),
    ensures
        is_permutation(a + b + c + d, w + x + y + z),
{
    assert forall|v: u64| (a + b + c + d).to_multiset().count(v) == (w + x + y
        + z).to_multiset().count(v) by {
        lemma_count_four(a, b, c, d, v);
        lemma_count_four(w, x, y, z, v);
    }
    assert((a + b + c + d).to_multiset() =~= (w + x + y + z).to_multiset());
}

impl IPS2RaSorter {
    /// The staged keys are those that fill no block, and each is staged for the
    /// bucket it belongs to.
    pub open spec fn staged_ok(&self, level: int) -> bool {
        &&& forall|b: int|
            0 <= b < K ==> #[trigger] self.block_counts[b] == self.element_counts[b] % 128
        &&& forall|b: int| 0 <= b < K ==> all_in_bucket(#[trigger] self.staged(b), level, b)
    }

    /// Number of keys of bucket `b`.
    pub open spec fn bucket_size(&self, b: int) -> int {
        self.boundaries[b + 1] - self.boundaries[b]
    }

    /// The keys between the boundaries of bucket `b`.
    pub open spec fn region(&self, keys: Seq<u64>, b: int) -> Seq<u64> {
        keys.subrange(self.boundaries[b] as int, self.boundaries[b + 1] as int)
    }

    /// The keys between the boundaries of every bucket, bucket by bucket.
    pub open spec fn regions(&self, keys: Seq<u64>) -> Seq<Seq<u64>> {
        Seq::new(256, |b: int| self.region(keys, b))
    }

    /// The full blocks of bucket `b` after the permutation, the one in the
    /// overflow buffer included.
    pub open spec fn full_part(&self, keys: Seq<u64>, b: int) -> Seq<u64> {
        self.layout(keys.len() as int).placed_part(keys, b) + if self.overflow && self.layout(
            keys.len() as int,
        ).owns_last_slot(b) {
            self.overflow_buffer@
        } else {
            Seq::<u64>::empty()
        }
    }

    pub open spec fn full_parts(&self, keys: Seq<u64>) -> Seq<Seq<u64>> {
        Seq::new(256, |b: int| self.full_part(keys, b))
    }

    /// Number of keys between boundary `b` and the next one.
    pub open spec fn span(boundaries: &[u64; NUM_BOUNDARIES], b: int) -> int {
        boundaries[b + 1] - boundaries[b]
    }

    /// `r` is the last bucket that holds a full block, or 0 where none does.
    pub open spec fn is_overflow_bucket(boundaries: &[u64; NUM_BOUNDARIES], r: int) -> bool {
        &&& 0 <= r < 256
        &&& r == 0 || Self::span(boundaries, r) >= 128
        &&& forall|b: int| r < b < 256 ==> #[trigger] Self::span(boundaries, b) < 128
    }

    /// The state of the sorter while buckets are cleaned up: as `start` was
    /// when cleanup began, but for the staging blocks of the buckets below `i`,
    /// which are empty.
    pub open spec fn cleaning(&self, start: &Self, i: int) -> bool {
        &&& self.pointers == start.pointers
        &&& self.boundaries == start.boundaries
        &&& self.element_counts == start.element_counts
        &&& self.classified_elements == start.classified_elements
        &&& self.blocks == start.blocks
        &&& self.overflow == start.overflow
        &&& self.overflow_buffer == start.overflow_buffer
        &&& self.swap_buffer == start.swap_buffer
        &&& self.primary_bucket == start.primary_bucket
        &&& self.same_resources(start)
        &&& forall|b: int| 0 <= b < i && b < 256 ==> #[trigger] self.block_counts[b] == 0
        &&& forall|b: int|
            i <= b < 256 ==> #[trigger] self.block_counts[b] == start.block_counts[b]
    }

    /// Bucket `b` is finished in `keys`: between its boundaries stand its full
    /// blocks, as `before` held them after the permutation, and its staged
    /// keys; and it is sorted where it is small and more levels follow.
    pub open spec fn region_done(
        &self,
        keys: Seq<u64>,
        before: Seq<u64>,
        level: int,
        finish_small: bool,
        b: int,
    ) -> bool {
        &&& is_permutation(self.region(keys, b), self.full_part(before, b) + self.staged(b))
        &&& all_in_bucket(self.region(keys, b), level, b)
        &&& finish_small && self.bucket_size(b) <= THRESHOLD ==> is_sorted(self.region(keys, b))
    }

    /// The last bucket that holds at least one full block, or bucket 0 where no
    /// bucket does.  If a block was diverted to the overflow buffer, it is a
    /// block of this bucket.
    pub fn compute_overflow_bucket(boundaries: &[u64; NUM_BOUNDARIES]) -> (bucket: usize)
        requires
            forall|b: int| 0 <= b < 256 ==> boundaries[b] <= #[trigger] boundaries[b + 1],
        ensures
            Self::is_overflow_bucket(boundaries, bucket as int),
    {
        let mut bucket: usize = K - 1;
        while bucket > 0 && boundaries[bucket + 1] - boundaries[bucket] < BLOCKSIZE as u64
            invariant
                bucket < K,
                forall|b: int| 0 <= b < 256 ==> boundaries[b] <= #[trigger] boundaries[b + 1],
                forall|b: int| bucket < b < 256 ==> #[trigger] Self::span(boundaries, b) < 128,
            decreases bucket,
        {
            bucket -= 1;
        }
        bucket
    }
}

pub proof fn lemma_all_in_bucket_concat(a: Seq<u64>, b: Seq<u64>, level: int, d: int)
    requires
        all_in_bucket(a, level, d),
        all_in_bucket(b, level, d),
    ensures
        all_in_bucket(a + b, level, d),
{
    assert forall|i: int| 0 <= i < (a + b).len() implies crate::model::bucket_of(
        #[trigger] (a + b)[i],
        level,
    ) == d by {
        if i < a.len() {
            assert((a + b)[i] == a[i]);
        } else {
            assert((a + b)[i] == b[i - a.len()]);
        }
    }
}

/// Where bucket `i` lies, where its slots lie and where its write cursor
/// stands after the permutation.
proof fn lemma_bucket_geometry(s: &IPS2RaSorter, keys: Seq<u64>, level: int, i: int)
    requires
        s.blocks_placed(keys, level),
        0 <= i < 256,
    ensures
        0 <= s.boundaries[i] <= s.boundaries[i + 1] <= keys.len(),
        s.boundaries[i + 1] - s.boundaries[i] == s.element_counts[i],
        s.layout(keys.len() as int).starts[i] == align_up(s.boundaries[i] as int),
        s.layout(keys.len() as int).stops[i] == align_up(s.boundaries[i + 1] as int),
        s.layout(keys.len() as int).writes[i] == s.pointers[i].0,
        s.pointers[i].0 == align_up(s.boundaries[i] as int) + (s.element_counts[i] / 128) * 128,
        s.layout(keys.len() as int).fulls[i] == s.element_counts[i] / 128,
        s.layout(keys.len() as int).cap() == align_down(keys.len() as int),
        s.layout(keys.len() as int).bucket_ok(i),
{
    let lay = s.layout(keys.len() as int);
    let counts = s.element_counts@;
    assert(s.boundaries[i] == prefix_sum(counts, i));
    assert(s.boundaries[i + 1] == prefix_sum(counts, i + 1));
    lemma_prefix_sum_monotone(counts, 0, i);
    lemma_prefix_sum_monotone(counts, i + 1, 256);
    assert(lay.settled(i));
    assert(lay.bucket_ok(i));
}

/// The bucket that `compute_overflow_bucket` names is the one whose block is in
/// the overflow buffer, if any block is; the full blocks of all other buckets
/// lie inside the range.
proof fn lemma_overflow_owner(s: &IPS2RaSorter, keys: Seq<u64>, level: int, r: int, b: int)
    requires
        s.blocks_placed(keys, level),
        IPS2RaSorter::is_overflow_bucket(&s.boundaries, r),
        0 <= b < 256,
    ensures
        s.overflow ==> s.layout(keys.len() as int).owns_last_slot(r) && s.layout(
            keys.len() as int,
        ).writes[r] == align_down(keys.len() as int) + 128 && all_in_bucket(
            s.overflow_buffer@,
            level,
            r,
        ),
        s.element_counts[b] >= 128 && !(s.overflow && b == r) ==> s.layout(
            keys.len() as int,
        ).writes[b] <= align_down(keys.len() as int),
        !(s.overflow && b == r) ==> !(s.overflow && s.layout(keys.len() as int).owns_last_slot(b)),
{
    let n = keys.len() as int;
    let lay = s.layout(n);
    let cap = lay.cap();
    lemma_bucket_geometry(s, keys, level, b);
    lemma_bucket_geometry(s, keys, level, r);
    lemma_region_bounds(lay, b);
    lemma_region_bounds(lay, r);
    if s.overflow {
        let d = lemma_find_last_slot_owner(lay, 255);
        lemma_bucket_geometry(s, keys, level, d);
        lemma_region_bounds(lay, d);
        assert(lay.owns_last_slot(d));
        assert(lay.writes[d] == cap + 128);
        assert(s.element_counts[d] >= 128);
        assert(IPS2RaSorter::span(&s.boundaries, d) >= 128);
        if d > r {
            assert(IPS2RaSorter::span(&s.boundaries, d) < 128);
        }
        if d < r {
            assert(IPS2RaSorter::span(&s.boundaries, r) >= 128);
            lemma_regions_ordered(lay, d, r);
            assert(false);
        }
        assert(d == r);
        if lay.owns_last_slot(b) {
            lemma_last_slot_owner_unique(lay, b, d);
        }
    }
    if s.element_counts[b] >= 128 && !(s.overflow && b == r) {
        if lay.writes[b] > cap {
            assert(lay.owns_last_slot(b));
            if !s.overflow {
                assert(lay.inside(b));
            }
            assert(false);
        }
    }
}

/// What cleanup works with: the blocks are placed, the staged keys are in
/// order, and `r` is the bucket that `compute_overflow_bucket` names.
#[verifier::opaque]
pub open spec fn cleanup_ready(s: &IPS2RaSorter, keys: Seq<u64>, level: int, r: int) -> bool {
    &&& s.blocks_placed(keys, level)
    &&& s.staged_ok(level)
    &&& IPS2RaSorter::is_overflow_bucket(&s.boundaries, r)
}

/// What cleanup knows of bucket `i` before it fills its gaps: the bucket has
/// `full` full blocks, which stand from `st` on, and `cap` is where the last
/// whole slot of the range ends.
pub open spec fn bucket_plan(
    s: &IPS2RaSorter,
    before: Seq<u64>,
    level: int,
    r: int,
    i: int,
    st: int,
    cap: int,
    full: int,
) -> bool {
    let n = before.len() as int;
    let bs = s.boundaries[i] as int;
    let be = s.boundaries[i + 1] as int;
    let w = s.pointers[i].0 as int;
    let sc = s.block_counts[i] as int;
    &&& 0 <= bs <= be <= n
    &&& n + 256 <= isize::MAX
    &&& bs <= st < bs + 128
    &&& 0 <= cap <= n < cap + 128
    &&& 0 <= full
    &&& 0 <= sc < 128
    &&& be - bs == full * 128 + sc
    &&& w == st + full * 128
    &&& st <= n ==> st <= cap
    &&& w <= n ==> w <= cap
    &&& s.overflow && i == r ==> w == cap + 128 && st <= cap
    &&& !(s.overflow && i == r) && full >= 1 ==> w <= cap
    &&& s.full_part(before, i) == before.subrange(min_int(st, cap), min_int(w, cap)) + if s.overflow
        && i == r {
        s.overflow_buffer@
    } else {
        Seq::<u64>::empty()
    }
    &&& all_in_bucket(s.full_part(before, i), level, i)
    &&& all_in_bucket(s.staged(i), level, i)
}

proof fn lemma_bucket_plan(s: &IPS2RaSorter, before: Seq<u64>, level: int, r: int, i: int)
    requires
        cleanup_ready(s, before, level, r),
        0 <= i < 256,
    ensures
        bucket_plan(
            s,
            before,
            level,
            r,
            i,
            align_up(s.boundaries[i] as int),
            align_down(before.len() as int),
            s.element_counts[i] as int / 128,
        ),
{
    reveal(cleanup_ready);
    let n = before.len() as int;
    let lay = s.layout(n);
    lemma_bucket_geometry(s, before, level, i);
    lemma_overflow_owner(s, before, level, r, i);
    lemma_region_bounds(lay, i);
    lemma_slots_hold_full_blocks(s.boundaries[i] as int, 0);
    lemma_slots_hold_full_blocks(n, 0);
    assert(s.block_counts[i] == s.element_counts[i] % 128);
    assert(all_in_bucket(lay.placed_part(before, i), level, i));
    assert(all_in_bucket(s.staged(i), level, i));
    let extra = if s.overflow && i == r {
        s.overflow_buffer@
    } else {
        Seq::<u64>::empty()
    };
    if s.overflow && lay.owns_last_slot(i) {
        assert(i == r);
    }
    if s.overflow && i == r {
        assert(lay.owns_last_slot(i));
    }
    assert(all_in_bucket(extra, level, i));
    lemma_all_in_bucket_concat(lay.placed_part(before, i), extra, level, i);
}

/// The range between `bs` and `be` is made of the four pieces `a`, `b`, `c`
/// and `d`, which are the pieces `w`, `x`, `y` and `z` in another order.
proof fn lemma_region_settled(
    keys: Seq<u64>,
    bs: int,
    be: int,
    a: Seq<u64>,
    b: Seq<u64>,
    c: Seq<u64>,
    d: Seq<u64>,
    w: Seq<u64>,
    x: Seq<u64>,
    y: Seq<u64>,
    z: Seq<u64>,
    target: Seq<u64>,
    level: int,
    i: int,
)
    requires
        holds_at(keys, bs, a),
        holds_at(keys, bs + a.len(), b),
        holds_at(keys, bs + a.len() + b.len(), c),
        holds_at(keys, bs + a.len() + b.len() + c.len(), d),
        be == bs + a.len() + b.len() + c.len() + d.len(),
        (w == a && x == b && y == c && z == d) || (w == b && x == a && y == c && z == d) || (w == c
            && x == a && y == b && z == d) || (w == b && x == c && y == a && z == d) || (w == a
            && x == c && y == b && z == d),
        target == w + x + y + z,
        all_in_bucket(target, level, i),
    ensures
        is_permutation(keys.subrange(bs, be), target),
        all_in_bucket(keys.subrange(bs, be), level, i),
{
    lemma_assemble(keys, bs, a, b, c, d);
    lemma_four_pieces(a, b, c, d, w, x, y, z);
    lemma_all_in_bucket_permutation(target, keys.subrange(bs, be), level, i);
}

/// Bucket `i` is filled in `keys`: between its boundaries stand its full blocks
/// and its staged keys, and nothing else has changed since `entry`.
pub open spec fn bucket_filled(
    start: &IPS2RaSorter,
    entry: Seq<u64>,
    keys: Seq<u64>,
    before: Seq<u64>,
    level: int,
    i: int,
) -> bool {
    &&& same_outside(entry, keys, start.boundaries[i] as int, start.boundaries[i + 1] as int)
    &&& is_permutation(start.region(keys, i), start.full_part(before, i) + start.staged(i))
    &&& all_in_bucket(start.region(keys, i), level, i)
}

/// What the three ways of filling a bucket ask for.
pub open spec fn fill_ready(
    sorter: &IPS2RaSorter,
    start: &IPS2RaSorter,
    entry: Seq<u64>,
    before: Seq<u64>,
    level: int,
    r: int,
    i: int,
    st: int,
    cap: int,
    full: int,
) -> bool {
    &&& 0 <= i < 256
    &&& bucket_plan(start, before, level, r, i, st, cap, full)
    &&& sorter.cleaning(start, i)
    &&& entry.len() == before.len()
    &&& forall|p: int| start.boundaries[i] <= p < before.len() ==> entry[p] == #[trigger] before[p]
}

/// The keys from `from` up to `to` stand in `entry` where they stood in `before`.
proof fn lemma_entry_holds(entry: Seq<u64>, before: Seq<u64>, lo: int, from: int, to: int)
    requires
        entry.len() == before.len(),
        forall|p: int| lo <= p < before.len() ==> entry[p] == #[trigger] before[p],
        0 <= lo <= from <= to <= before.len(),
    ensures
        holds_at(entry, from, before.subrange(from, to)),
        entry.subrange(from, to) == before.subrange(from, to),
{
    let piece = before.subrange(from, to);
    assert forall|j: int| 0 <= j < piece.len() implies entry[from + j] == #[trigger] piece[j] by {
        assert(entry[from + j] == before[from + j]);
    }
    assert(entry.subrange(from, to) =~= piece);
}

impl IPS2RaSorter {
    /// Fills the bucket whose last block is in the overflow buffer: the front
    /// of that block goes into the gap before the first slot, the rest of it
    /// into the cut-off last slot, and the staged keys behind it.
    fn fill_from_overflow<S: KeyStore + ?Sized>(
        &self,
        keys: &mut S,
        i: usize,
        level: usize,
        Ghost(before): Ghost<Seq<u64>>,
        Ghost(start): Ghost<IPS2RaSorter>,
        Ghost(r): Ghost<int>,
        Ghost(cap): Ghost<int>,
        Ghost(full): Ghost<int>,
    )
        requires
            old(keys).usable(),
            i < K,
            fill_ready(
                self,
                &start,
                old(keys).keys(),
                before,
                level as int,
                r,
                i as int,
                align_up(start.boundaries[i as int] as int),
                cap,
                full,
            ),
            start.overflow && i == r,
        ensures
            final(keys).usable(),
            final(keys).surroundings() == old(keys).surroundings(),
            bucket_filled(&start, old(keys).keys(), final(keys).keys(), before, level as int, i as int),
    {
        let ghost k0 = keys.keys();
        let bstart = self.boundaries[i] as usize;
        let bwrite = self.pointers[i].0;
        let count = self.block_counts[i];
        let head = Self::align_to_next_block(bstart) - bstart;
        let tail_size = BLOCKSIZE - head;
        let ghost bs = bstart as int;
        let ghost be = start.boundaries[i + 1] as int;
        let ghost st = bs + head;
        let ghost staged = start.staged(i as int);
        let ghost ovf = start.overflow_buffer@;
        let ghost placed = before.subrange(st, cap);
        let ghost o1 = ovf.subrange(0, head as int);
        let ghost o2 = ovf.subrange(head as int, 128);
        write_keys(keys, bstart, &self.overflow_buffer, 0, head);
        let ghost ka = keys.keys();
        let tail = bwrite as usize - BLOCKSIZE;
        write_keys(keys, tail, &self.overflow_buffer, head, tail_size);
        let ghost kb = keys.keys();
        write_keys(keys, tail + tail_size, &self.blocks[i], 0, count);
        proof {
            let k2 = keys.keys();
            let target = start.full_part(before, i as int) + staged;
            assert(staged =~= start.blocks[i as int]@.subrange(0, count as int));
            assert(ovf =~= o1 + o2);
            lemma_entry_holds(k0, before, bs, st, cap);
            lemma_holds_kept(k0, ka, bs, st, st, placed);
            lemma_holds_kept(ka, kb, cap, cap + tail_size, st, placed);
            lemma_holds_kept(kb, k2, cap + tail_size, be, st, placed);
            lemma_holds_kept(ka, kb, cap, cap + tail_size, bs, o1);
            lemma_holds_kept(kb, k2, cap + tail_size, be, bs, o1);
            lemma_holds_kept(kb, k2, cap + tail_size, be, cap, o2);
            lemma_same_outside_chain(k0, ka, kb, bs, st, cap, cap + tail_size, bs, be);
            lemma_same_outside_chain(k0, kb, k2, bs, be, cap + tail_size, be, bs, be);
            lemma_all_in_bucket_concat(
                start.full_part(before, i as int),
                staged,
                level as int,
                i as int,
            );
            assert(target =~= placed + o1 + o2 + staged);
            lemma_region_settled(
                k2,
                bs,
                be,
                o1,
                placed,
                o2,
                staged,
                placed,
                o1,
                o2,
                staged,
                target,
                level as int,
                i as int,
            );
        }
    }

    /// Fills a bucket whose last block hangs over its end: the keys that hang
    /// over go into the gap before the first slot, and the staged keys behind
    /// them.
    fn fill_from_overhang<S: KeyStore + ?Sized>(
        &self,
        keys: &mut S,
        i: usize,
        level: usize,
        Ghost(before): Ghost<Seq<u64>>,
        Ghost(start): Ghost<IPS2RaSorter>,
        Ghost(r): Ghost<int>,
        Ghost(cap): Ghost<int>,
        Ghost(full): Ghost<int>,
    )
        requires
            old(keys).usable(),
            i < K,
            fill_ready(
                self,
                &start,
                old(keys).keys(),
                before,
                level as int,
                r,
                i as int,
                align_up(start.boundaries[i as int] as int),
                cap,
                full,
            ),
            !(start.overflow && i == r),
            start.pointers[i as int].0 > start.boundaries[i + 1],
            start.boundaries[i + 1] - start.boundaries[i as int] >= 128,
        ensures
            final(keys).usable(),
            final(keys).surroundings() == old(keys).surroundings(),
            bucket_filled(&start, old(keys).keys(), final(keys).keys(), before, level as int, i as int),
    {
        let ghost k0 = keys.keys();
        let bstart = self.boundaries[i] as usize;
        let bend = self.boundaries[i + 1] as usize;
        let bwrite = self.pointers[i].0;
        let count = self.block_counts[i];
        let head_size = bwrite as usize - bend;
        let ghost bs = bstart as int;
        let ghost be = bend as int;
        let ghost st = align_up(bs);
        let ghost w = bwrite as int;
        let ghost staged = start.staged(i as int);
        let ghost hang = before.subrange(be, w);
        let ghost kept = before.subrange(st, be);
        let ghost none = Seq::<u64>::empty();
        proof {
            lemma_entry_holds(k0, before, bs, be, w);
            lemma_entry_holds(k0, before, bs, st, be);
        }
        move_keys(keys, bstart, bend, head_size);
        let ghost k1 = keys.keys();
        write_keys(keys, bstart + head_size, &self.blocks[i], 0, count);
        proof {
            let k2 = keys.keys();
            let target = start.full_part(before, i as int) + staged;
            assert(staged =~= start.blocks[i as int]@.subrange(0, count as int));
            assert(before.subrange(st, w) =~= kept + hang);
            lemma_holds_kept(k1, k2, bs + head_size, st, bs, hang);
            lemma_holds_kept(k0, k1, bs, bs + head_size, st, kept);
            lemma_holds_kept(k1, k2, bs + head_size, st, st, kept);
            assert(holds_at(k2, be, none));
            lemma_same_outside_chain(k0, k1, k2, bs, bs + head_size, bs + head_size, st, bs, be);
            lemma_all_in_bucket_concat(
                start.full_part(before, i as int),
                staged,
                level as int,
                i as int,
            );
            assert(target =~= kept + hang + staged + none);
            lemma_region_settled(
                k2,
                bs,
                be,
                hang,
                staged,
                kept,
                none,
                kept,
                hang,
                staged,
                none,
                target,
                level as int,
                i as int,
            );
        }
    }

    /// Fills a bucket whose full blocks all lie between its boundaries: the
    /// staged keys go into the gap before the first slot, and those that do not
    /// fit there go behind the last full block.
    fn fill_from_staged<S: KeyStore + ?Sized>(
        &self,
        keys: &mut S,
        i: usize,
        level: usize,
        Ghost(before): Ghost<Seq<u64>>,
        Ghost(start): Ghost<IPS2RaSorter>,
        Ghost(r): Ghost<int>,
        Ghost(cap): Ghost<int>,
        Ghost(full): Ghost<int>,
    )
        requires
            old(keys).usable(),
            i < K,
            fill_ready(
                self,
                &start,
                old(keys).keys(),
                before,
                level as int,
                r,
                i as int,
                align_up(start.boundaries[i as int] as int),
                cap,
                full,
            ),
            !(start.overflow && i == r),
            !(start.pointers[i as int].0 > start.boundaries[i + 1] && start.boundaries[i + 1]
                - start.boundaries[i as int] >= 128),
        ensures
            final(keys).usable(),
            final(keys).surroundings() == old(keys).surroundings(),
            bucket_filled(&start, old(keys).keys(), final(keys).keys(), before, level as int, i as int),
    {
        let ghost k0 = keys.keys();
        let bstart = self.boundaries[i] as usize;
        let bwrite = self.pointers[i].0;
        let count = self.block_counts[i];
        let remaining = Self::align_to_next_block(bstart) - bstart;
        let ghost bs = bstart as int;
        let ghost be = start.boundaries[i + 1] as int;
        let ghost st = bs + remaining;
        let ghost w = bwrite as int;
        let ghost staged = start.staged(i as int);
        let ghost none = Seq::<u64>::empty();
        let ghost target = start.full_part(before, i as int) + staged;
        proof {
            assert(staged =~= start.blocks[i as int]@.subrange(0, count as int));
            lemma_all_in_bucket_concat(
                start.full_part(before, i as int),
                staged,
                level as int,
                i as int,
            );
        }
        if count <= remaining {
            write_keys(keys, bstart, &self.blocks[i], 0, count);
            proof {
                let k2 = keys.keys();
                let placed = before.subrange(bs + count, be);
                lemma_entry_holds(k0, before, bs, bs + count, be);
                lemma_holds_kept(k0, k2, bs, bs + count, bs + count, placed);
                assert(holds_at(k2, be, none));
                assert(start.full_part(before, i as int) =~= placed);
                assert(target =~= placed + staged + none + none);
                lemma_region_settled(
                    k2,
                    bs,
                    be,
                    staged,
                    placed,
                    none,
                    none,
                    placed,
                    staged,
                    none,
                    none,
                    target,
                    level as int,
                    i as int,
                );
            }
        } else {
            write_keys(keys, bstart, &self.blocks[i], 0, remaining);
            let ghost ka = keys.keys();
            write_keys(keys, bwrite as usize, &self.blocks[i], remaining, count - remaining);
            proof {
                let k2 = keys.keys();
                let placed = before.subrange(st, w);
                let s1 = staged.subrange(0, remaining as int);
                let s2 = staged.subrange(remaining as int, count as int);
                assert(staged =~= s1 + s2);
                assert(s1 =~= start.blocks[i as int]@.subrange(0, remaining as int));
                assert(s2 =~= start.blocks[i as int]@.subrange(remaining as int, count as int));
                lemma_entry_holds(k0, before, bs, st, w);
                lemma_holds_kept(k0, ka, bs, st, st, placed);
                lemma_holds_kept(ka, k2, w, be, st, placed);
                lemma_holds_kept(ka, k2, w, be, bs, s1);
                assert(holds_at(k2, be, none));
                lemma_same_outside_chain(k0, ka, k2, bs, st, w, be, bs, be);
                assert(start.full_part(before, i as int) =~= placed);
                assert(target =~= placed + s1 + s2 + none);
                lemma_region_settled(
                    k2,
                    bs,
                    be,
                    s1,
                    placed,
                    s2,
                    none,
                    placed,
                    s1,
                    s2,
                    none,
                    target,
                    level as int,
                    i as int,
                );
            }
        }
    }

    /// Fills the gaps of bucket `i` and, where `finish_small` asks for it,
    /// sorts the bucket if it is small.
    fn cleanup_bucket<S: KeyStore + ?Sized>(
        &mut self,
        keys: &mut S,
        i: usize,
        overflow_bucket: usize,
        level: usize,
        finish_small: bool,
        Ghost(before): Ghost<Seq<u64>>,
        Ghost(start): Ghost<IPS2RaSorter>,
    )
        requires
            old(keys).usable(),
            i < K,
            level < 8,
            cleanup_ready(&start, before, level as int, overflow_bucket as int),
            old(self).cleaning(&start, i as int),
            old(keys).keys().len() == before.len(),
            forall|p: int|
                start.boundaries[i as int] <= p < before.len() ==> old(keys).keys()[p]
                    == #[trigger] before[p],
        ensures
            final(keys).usable(),
            final(keys).surroundings() == old(keys).surroundings(),
            final(keys).keys().len() == before.len(),
            same_outside(
                old(keys).keys(),
                final(keys).keys(),
                start.boundaries[i as int] as int,
                start.boundaries[i + 1] as int,
            ),
            final(self).cleaning(&start, i + 1),
            start.region_done(final(keys).keys(), before, level as int, finish_small, i as int),
    {
        let ghost n = before.len() as int;
        let ghost k0 = keys.keys();
        let ghost cap: int = align_down(n);
        let ghost full: int = start.element_counts[i as int] as int / 128;
        proof {
            lemma_bucket_plan(&start, before, level as int, overflow_bucket as int, i as int);
        }
        let bstart = self.boundaries[i] as usize;
        let bend = self.boundaries[i + 1] as usize;
        let bwrite = self.pointers[i].0;
        if i == overflow_bucket && self.overflow {
            self.fill_from_overflow(
                keys,
                i,
                level,
                Ghost(before),
                Ghost(start),
                Ghost(overflow_bucket as int),
                Ghost(cap),
                Ghost(full),
            );
        } else if bwrite > bend as i64 && bend - bstart >= BLOCKSIZE {
            self.fill_from_overhang(
                keys,
                i,
                level,
                Ghost(before),
                Ghost(start),
                Ghost(overflow_bucket as int),
                Ghost(cap),
                Ghost(full),
            );
        } else {
            self.fill_from_staged(
                keys,
                i,
                level,
                Ghost(before),
                Ghost(start),
                Ghost(overflow_bucket as int),
                Ghost(cap),
                Ghost(full),
            );
        }
        self.block_counts[i] = 0;
        let ghost k2 = keys.keys();
        if finish_small {
            if bend - bstart <= THRESHOLD {
                keys.sort_small(bstart, bend);
                proof {
                    let k3 = keys.keys();
                    let region = start.region(k2, i as int);
                    let sorted = start.region(k3, i as int);
                    lemma_all_in_bucket_permutation(region, sorted, level as int, i as int);
                    assert forall|p: int|
                        0 <= p < n && !(bstart <= p < bend) implies #[trigger] k3[p] == k0[p] by {
                        if p < bstart {
                            assert(k3.subrange(0, bstart as int)[p] == k2.subrange(
                                0,
                                bstart as int,
                            )[p]);
                        } else {
                            assert(k3.subrange(bend as int, n)[p - bend] == k2.subrange(
                                bend as int,
                                n,
                            )[p - bend]);
                        }
                        assert(k2[p] == k0[p]);
                    }
                }
            }
        }
    }
}

/// The boundaries never step back and end at the length of the range.
proof fn lemma_boundaries_ordered(s: &IPS2RaSorter, keys: Seq<u64>, level: int, r: int, a: int, b: int)
    requires
        cleanup_ready(s, keys, level, r),
        0 <= a <= b <= 256,
    ensures
        0 <= s.boundaries[a] <= s.boundaries[b] <= keys.len(),
        s.boundaries[0] == 0,
        s.boundaries[256] == keys.len(),
{
    reveal(cleanup_ready);
    let counts = s.element_counts@;
    assert(s.boundaries[a] == prefix_sum(counts, a));
    assert(s.boundaries[b] == prefix_sum(counts, b));
    assert(s.boundaries[0] == prefix_sum(counts, 0));
    assert(s.boundaries[256] == prefix_sum(counts, 256));
    lemma_prefix_sum_monotone(counts, a, b);
    lemma_prefix_sum_monotone(counts, b, 256);
    lemma_prefix_sum_monotone(counts, 0, a);
}

/// A finished bucket stays finished while a higher bucket is filled.
proof fn lemma_region_kept(
    s: &IPS2RaSorter,
    before: Seq<u64>,
    level: int,
    r: int,
    finish_small: bool,
    keys: Seq<u64>,
    keys_after: Seq<u64>,
    i: int,
    b: int,
)
    requires
        cleanup_ready(s, before, level, r),
        0 <= b < i < 256,
        keys.len() == before.len(),
        same_outside(keys, keys_after, s.boundaries[i] as int, s.boundaries[i + 1] as int),
        s.region_done(keys, before, level, finish_small, b),
    ensures
        s.region_done(keys_after, before, level, finish_small, b),
{
    lemma_boundaries_ordered(s, before, level, r, b, b + 1);
    lemma_boundaries_ordered(s, before, level, r, b + 1, i);
    lemma_boundaries_ordered(s, before, level, r, i, i + 1);
    assert(s.region(keys_after, b) =~= s.region(keys, b));
}

/// Once every bucket is finished, the range holds the full blocks that the
/// permutation placed and the keys that were staged.
proof fn lemma_cleanup_finish(
    s: &IPS2RaSorter,
    before: Seq<u64>,
    keys: Seq<u64>,
    level: int,
    r: int,
    finish_small: bool,
)
    requires
        cleanup_ready(s, before, level, r),
        keys.len() == before.len(),
        forall|b: int| 0 <= b < 256 ==> #[trigger] s.region_done(keys, before, level, finish_small, b),
    ensures
        is_permutation(keys, s.placed_keys(before) + concat_parts(s.staged_parts())),
{
    broadcast use vstd::multiset::group_multiset_axioms;

    let n = before.len() as int;
    let lay = s.layout(n);
    let regions = s.regions(keys);
    let fulls = s.full_parts(before);
    let staged = s.staged_parts();
    let placed = lay.placed_parts(before);
    let none = Seq::<u64>::empty();
    let cuts = Seq::new(257, |b: int| s.boundaries[b] as int);
    assert forall|b: int| 0 <= b < 256 implies cuts[b] <= #[trigger] cuts[b + 1] by {
        lemma_boundaries_ordered(s, before, level, r, b, b + 1);
    }
    lemma_boundaries_ordered(s, before, level, r, 0, 256);
    assert forall|b: int| 0 <= b < 256 implies #[trigger] regions[b] == keys.subrange(
        cuts[b],
        cuts[b + 1],
    ) by {}
    lemma_parts_of_ranges(keys, cuts, regions);
    assert(keys.subrange(0, n) =~= keys);
    assert forall|b: int| 0 <= b < 256 implies (#[trigger] regions[b]).to_multiset()
        == fulls[b].to_multiset().add(staged[b].to_multiset()) by {
        assert(s.region_done(keys, before, level, finish_small, b));
        lemma_concat_multiset(s.full_part(before, b), s.staged(b));
    }
    lemma_parts_add(regions, fulls, staged);
    reveal(cleanup_ready);
    let extra = ovf_part(s.overflow_buffer@, s.overflow);
    lemma_concat_multiset(concat_parts(placed), extra);
    lemma_concat_multiset(s.placed_keys(before), concat_parts(staged));
    if s.overflow {
        let d = lemma_find_last_slot_owner(lay, 255);
        let grown = lay.placed_part(before, d) + s.overflow_buffer@;
        assert(fulls =~= placed.update(d, grown)) by {
            assert forall|b: int| 0 <= b < 256 implies #[trigger] fulls[b] == placed.update(
                d,
                grown,
            )[b] by {
                if b != d {
                    if lay.owns_last_slot(b) {
                        lemma_last_slot_owner_unique(lay, b, d);
                    }
                    assert(s.full_part(before, b) =~= lay.placed_part(before, b));
                }
            }
        }
        lemma_parts_update(placed, d, grown);
        lemma_concat_multiset(lay.placed_part(before, d), s.overflow_buffer@);
        let cf = concat_parts(fulls).to_multiset();
        let cp = concat_parts(placed).to_multiset();
        let pd = lay.placed_part(before, d).to_multiset();
        let ov = s.overflow_buffer@.to_multiset();
        assert forall|v: u64| cf.count(v) == cp.add(ov).count(v) by {
            assert(cf.add(pd).count(v) == cp.add(grown.to_multiset()).count(v));
            assert(cf.add(pd).count(v) == cf.count(v) + pd.count(v));
            assert(cp.add(grown.to_multiset()).count(v) == cp.count(v) + grown.to_multiset().count(
                v,
            ));
            assert(grown.to_multiset().count(v) == pd.add(ov).count(v));
            assert(pd.add(ov).count(v) == pd.count(v) + ov.count(v));
            assert(cp.add(ov).count(v) == cp.count(v) + ov.count(v));
        }
        assert(cf =~= cp.add(ov));
    } else {
        assert(fulls =~= placed) by {
            assert forall|b: int| 0 <= b < 256 implies #[trigger] fulls[b] == placed[b] by {
                assert(s.full_part(before, b) =~= lay.placed_part(before, b));
            }
        }
        assert(concat_parts(placed) + extra =~= concat_parts(placed));
    }
}

impl IPS2RaSorter {
    /// The range is partitioned at `level`: between the boundaries of every
    /// bucket stand keys of that bucket only, and the small buckets are sorted
    /// where `finish_small` holds.
    pub open spec fn partitioned(&self, keys: Seq<u64>, level: int, finish_small: bool) -> bool {
        &&& self.boundaries_ok()
        &&& prefix_sum(self.element_counts@, 256) == keys.len()
        &&& forall|b: int|
            0 <= b < 256 ==> all_in_bucket(#[trigger] self.region(keys, b), level, b)
        &&& forall|b: int|
            0 <= b < 256 && finish_small && self.bucket_size(b) <= THRESHOLD ==> is_sorted(
                #[trigger] self.region(keys, b),
            )
    }

    /// Finishes the partitioning of an in-memory task.
    pub fn cleanup(&mut self, task: &mut Task)
        requires
            old(self).blocks_placed(old(task).arr@, old(task).level as int),
            old(self).staged_ok(old(task).level as int),
            old(task).level < 8,
        ensures
            final(self).partitioned(
                final(task).arr@,
                old(task).level as int,
                old(task).level + 1 != old(task).level_end,
            ),
            is_permutation(
                final(task).arr@,
                old(self).placed_keys(old(task).arr@) + concat_parts(old(self).staged_parts()),
            ),
            final(self).cleaning(old(self), 256),
            final(task).level == old(task).level,
            final(task).level_end == old(task).level_end,
    {
        self.cleanup_keys(task.arr, task.level, task.level_end);
    }

    /// Finishes the partitioning of `keys` at `level`: the staged keys and the
    /// block in the overflow buffer are written into the gaps that the block
    /// permutation left, so that every bucket stands between its boundaries.
    /// A bucket of at most `THRESHOLD` keys is sorted on the spot, unless
    /// `level` is the last level in play.
    pub fn cleanup_keys<S: KeyStore + ?Sized>(&mut self, keys: &mut S, level: usize, level_end: usize)
        requires
            old(keys).usable(),
            old(self).blocks_placed(old(keys).keys(), level as int),
            old(self).staged_ok(level as int),
            level < 8,
        ensures
            final(keys).usable(),
            final(keys).surroundings() == old(keys).surroundings(),
            final(self).partitioned(final(keys).keys(), level as int, level + 1 != level_end),
            is_permutation(
                final(keys).keys(),
                old(self).placed_keys(old(keys).keys()) + concat_parts(old(self).staged_parts()),
            ),
            final(self).cleaning(old(self), 256),
    {
        let ghost before = keys.keys();
        let ghost start = *self;
        let ghost n = before.len() as int;
        proof {
            assert forall|b: int| 0 <= b < 256 implies self.boundaries[b]
                <= #[trigger] self.boundaries[b + 1] by {
                lemma_bucket_geometry(self, before, level as int, b);
            }
        }
        let overflow_bucket = Self::compute_overflow_bucket(&self.boundaries);
        let is_last_level = level + 1 == level_end;
        let finish_small = !is_last_level;
        proof {
            assert(cleanup_ready(&start, before, level as int, overflow_bucket as int)) by {
                reveal(cleanup_ready);
            }
            lemma_boundaries_ordered(&start, before, level as int, overflow_bucket as int, 0, 0);
        }
        let mut i: usize = 0;
        while i < K
            invariant
                i <= K,
                level < 8,
                finish_small == (level + 1 != level_end),
                n == before.len(),
                keys.usable(),
                keys.surroundings() == old(keys).surroundings(),
                keys.keys().len() == n,
                cleanup_ready(&start, before, level as int, overflow_bucket as int),
                self.cleaning(&start, i as int),
                forall|p: int|
                    start.boundaries[i as int] <= p < n ==> keys.keys()[p] == #[trigger] before[p],
                forall|b: int|
                    0 <= b < i ==> #[trigger] start.region_done(
                        keys.keys(),
                        before,
                        level as int,
                        finish_small,
                        b,
                    ),
            decreases K - i,
        {
            let ghost entry = keys.keys();
            self.cleanup_bucket(
                keys,
                i,
                overflow_bucket,
                level,
                finish_small,
                Ghost(before),
                Ghost(start),
            );
            proof {
                let after = keys.keys();
                lemma_boundaries_ordered(
                    &start,
                    before,
                    level as int,
                    overflow_bucket as int,
                    i as int,
                    i + 1,
                );
                assert forall|p: int| start.boundaries[i + 1] <= p < n implies after[p]
                    == #[trigger] before[p] by {
                    assert(after[p] == entry[p]);
                }
                assert forall|b: int| 0 <= b < i + 1 implies #[trigger] start.region_done(
                    after,
                    before,
                    level as int,
                    finish_small,
                    b,
                ) by {
                    if b < i {
                        lemma_region_kept(
                            &start,
                            before,
                            level as int,
                            overflow_bucket as int,
                            finish_small,
                            entry,
                            after,
                            i as int,
                            b,
                        );
                    }
                }
            }
            i += 1;
        }
        proof {
            lemma_cleanup_finish(
                &start,
                before,
                keys.keys(),
                level as int,
                overflow_bucket as int,
                finish_small,
            );
            reveal(cleanup_ready);
            assert forall|b: int| 0 <= b < 256 implies all_in_bucket(
                #[trigger] self.region(keys.keys(), b),
                level as int,
                b,
            ) by {
                assert(start.region_done(keys.keys(), before, level as int, finish_small, b));
                assert(self.region(keys.keys(), b) == start.region(keys.keys(), b));
            }
            assert forall|b: int|
                0 <= b < 256 && finish_small && self.bucket_size(b) <= THRESHOLD implies is_sorted(
                #[trigger] self.region(keys.keys(), b),
            ) by {
                assert(start.region_done(keys.keys(), before, level as int, finish_small, b));
                assert(self.region(keys.keys(), b) == start.region(keys.keys(), b));
            }
        }
    }
}

/// The logical block that holds key `index` of a task which starts at logical
/// block `start_lba`, and the offset of the task in its first block.
pub fn calculate_lba_offset(index: usize, start_lba: usize, task_offset: usize) -> (place: (
    usize,
    usize,
))
    requires
        index / 64 + start_lba <= usize::MAX,
    ensures
        place.0 == index / 64 + start_lba,
        place.1 == task_offset,
{
    let lba = index / crate::config::ELEMENTS_PER_LBA + start_lba;
    let offset = task_offset;
    (lba, offset)
}

} // verus!
