//! The block layout of one partitioning round, as plain mathematical values,
//! and the invariant of the block permutation stated over it.
//!
//! The range of a task is cut into slots of `BLOCKSIZE` keys.  Bucket `b` owns
//! the slots from `starts[b]` up to `stops[b]`.  Its write cursor `writes[b]`
//! runs up from `starts[b]` over slots that hold blocks of the bucket; its read
//! cursor `reads[b]` runs down to the write cursor over blocks that still wait
//! to be moved.  The last slot may reach past the end of the range: the block
//! that belongs there is kept in the overflow buffer.

use crate::model::{align_down, align_up, all_in_bucket, bucket_of, count_in_bucket, is_permutation};
use crate::parts::{concat_parts, lemma_parts_count_lower, lemma_parts_count_sorted_out, lemma_parts_of_ranges};
use vstd::prelude::*;

verus! {

pub struct Layout {
    pub starts: Seq<int>,
    pub stops: Seq<int>,
    pub writes: Seq<int>,
    pub reads: Seq<int>,
    pub fulls: Seq<int>,
    pub len: int,
    pub flushed: int,
}

pub open spec fn max_int(a: int, b: int) -> int {
    if a >= b {
        a
    } else {
        b
    }
}

pub open spec fn min_int(a: int, b: int) -> int {
    if a <= b {
        a
    } else {
        b
    }
}

/// Sum of the entries of `s`.
pub open spec fn seq_sum(s: Seq<int>) -> int
    decreases s.len(),
{
    if s.len() == 0 {
        0
    } else {
        seq_sum(s.drop_last()) + s.last()
    }
}

pub proof fn lemma_seq_sum_update(s: Seq<int>, d: int, v: int)
    requires
        0 <= d < s.len(),
    ensures
        seq_sum(s.update(d, v)) == seq_sum(s) - s[d] + v,
    decreases s.len(),
{
    if d == s.len() - 1 {
        assert(s.update(d, v).drop_last() =~= s.drop_last());
    } else {
        assert(s.update(d, v).drop_last() =~= s.drop_last().update(d, v));
        lemma_seq_sum_update(s.drop_last(), d, v);
    }
}

pub proof fn lemma_seq_sum_le(a: Seq<int>, b: Seq<int>)
    requires
        a.len() == b.len(),
        forall|i: int| 0 <= i < a.len() ==> a[i] <= b[i],
    ensures
        seq_sum(a) <= seq_sum(b),
    decreases a.len(),
{
    if a.len() > 0 {
        lemma_seq_sum_le(a.drop_last(), b.drop_last());
    }
}

impl Layout {
    /// Start of the last slot if that slot is cut short by the end of the range,
    /// else the end of the range.
    pub open spec fn cap(self) -> int {
        align_down(self.len)
    }

    /// Where the blocks that classification wrote into the slots of bucket `b` end.
    pub open spec fn unread_end(self, b: int) -> int {
        if self.starts[b] >= self.flushed {
            self.starts[b]
        } else if self.stops[b] <= self.flushed {
            self.stops[b]
        } else {
            self.flushed
        }
    }

    /// Start of the slots of bucket `b`, cut off at the last slot that lies
    /// inside the range.
    pub open spec fn lo(self, b: int) -> int {
        min_int(self.starts[b], self.cap())
    }

    /// End of the slots of bucket `b` that hold a block inside the range.
    pub open spec fn lim(self, b: int) -> int {
        min_int(max_int(self.writes[b], self.reads[b]), self.cap())
    }

    /// End of the slots of bucket `b` that hold a block of the bucket inside the range.
    pub open spec fn placed_end(self, b: int) -> int {
        min_int(self.writes[b], self.cap())
    }

    pub open spec fn live_part(self, keys: Seq<u64>, b: int) -> Seq<u64> {
        keys.subrange(self.lo(b), self.lim(b))
    }

    /// The blocks in the slots of every bucket, bucket by bucket.
    pub open spec fn live_parts(self, keys: Seq<u64>) -> Seq<Seq<u64>> {
        Seq::new(256, |b: int| self.live_part(keys, b))
    }

    pub open spec fn placed_part(self, keys: Seq<u64>, b: int) -> Seq<u64> {
        keys.subrange(self.lo(b), self.placed_end(b))
    }

    /// The blocks that stand in a slot of their own bucket, bucket by bucket.
    pub open spec fn placed_parts(self, keys: Seq<u64>) -> Seq<Seq<u64>> {
        Seq::new(256, |b: int| self.placed_part(keys, b))
    }

    /// The slots of bucket `b` include the last slot of a range whose length is
    /// no multiple of the block size.
    pub open spec fn owns_last_slot(self, b: int) -> bool {
        self.starts[b] <= self.cap() < self.stops[b]
    }

    /// The cursors and the slots of bucket `b` are in order.
    pub open spec fn bucket_ok(self, b: int) -> bool {
        &&& self.starts[b] % 128 == 0
        &&& self.stops[b] % 128 == 0
        &&& self.writes[b] % 128 == 0
        &&& self.reads[b] % 128 == 0
        &&& self.starts[b] <= self.writes[b] <= self.stops[b]
        &&& self.starts[b] - 128 <= self.reads[b] <= self.unread_end(b)
        &&& 0 <= self.fulls[b]
        &&& self.fulls[b] * 128 <= self.stops[b] - self.starts[b]
        &&& b < 255 ==> self.stops[b] == self.starts[b + 1]
    }

    pub open spec fn wf(self) -> bool {
        &&& self.starts.len() == 256
        &&& self.stops.len() == 256
        &&& self.writes.len() == 256
        &&& self.reads.len() == 256
        &&& self.fulls.len() == 256
        &&& 0 <= self.flushed <= self.cap()
        &&& self.flushed % 128 == 0
        &&& 0 <= self.len
        &&& self.starts[0] == 0
        &&& self.stops[255] == align_up(self.len)
        &&& forall|b: int| 0 <= b < 256 ==> #[trigger] self.bucket_ok(b)
    }

    /// Every block below a write cursor holds keys of the bucket of that cursor.
    pub open spec fn placed_ok(self, keys: Seq<u64>, level: int) -> bool {
        forall|b: int|
            0 <= b < 256 ==> all_in_bucket(#[trigger] self.placed_part(keys, b), level, b)
    }

    /// The write cursor of bucket `b` has not passed the last slot that lies
    /// inside the range.
    pub open spec fn inside(self, b: int) -> bool {
        self.writes[b] <= max_int(self.cap(), self.starts[b])
    }

    /// The overflow buffer is in use exactly if the bucket that owns the
    /// cut-off last slot has put a block there.
    pub open spec fn overflow_ok(self, ovf: Seq<u64>, overflow: bool, level: int) -> bool {
        &&& ovf.len() == 128
        &&& overflow ==> self.len % 128 != 0 && forall|b: int|
            0 <= b < 256 && #[trigger] self.owns_last_slot(b) ==> self.writes[b] == self.cap() + 128
                && all_in_bucket(ovf, level, b)
        &&& !overflow ==> forall|b: int| 0 <= b < 256 ==> #[trigger] self.inside(b)
    }

    /// Key `q` stands in a block of bucket `b` that waits to be moved.
    pub open spec fn waiting(self, b: int, q: int) -> bool {
        self.writes[b] <= q < self.reads[b]
    }

    /// Every waiting block holds keys of one bucket.
    pub open spec fn waiting_ok(self, keys: Seq<u64>, level: int) -> bool {
        forall|b: int, q: int|
            0 <= b < 256 && #[trigger] self.waiting(b, q) ==> bucket_of(keys[q], level)
                == bucket_of(keys[align_down(q)], level)
    }

    /// What the permutation keeps true of the slots, whatever is in the hand.
    pub open spec fn shape(self, keys: Seq<u64>, ovf: Seq<u64>, overflow: bool, level: int) -> bool {
        &&& self.wf()
        &&& keys.len() == self.len
        &&& 0 <= level < 8
        &&& self.placed_ok(keys, level)
        &&& self.overflow_ok(ovf, overflow, level)
        &&& self.waiting_ok(keys, level)
    }

    /// The invariant of the block permutation.  `hand` is the block that is
    /// being carried to its bucket, empty when none is; `ovf` is the overflow
    /// buffer; `src` are the blocks as classification left them.
    pub open spec fn permuting(
        self,
        keys: Seq<u64>,
        hand: Seq<u64>,
        ovf: Seq<u64>,
        overflow: bool,
        src: Seq<u64>,
        level: int,
    ) -> bool {
        &&& self.shape(keys, ovf, overflow, level)
        &&& hand.len() == 0 || (hand.len() == 128 && all_in_bucket(
            hand,
            level,
            bucket_of(hand[0], level),
        ))
        &&& is_permutation(
            concat_parts(self.live_parts(keys)) + hand + if overflow {
                ovf
            } else {
                Seq::<u64>::empty()
            },
            src,
        )
        &&& forall|d: int|
            0 <= d < 256 ==> #[trigger] count_in_bucket(src, level, d) == self.fulls[d] * 128
    }

    /// The write cursor of bucket `b` stands behind the full blocks of the bucket.
    pub open spec fn settled(self, b: int) -> bool {
        self.writes[b] == self.starts[b] + self.fulls[b] * 128
    }

    /// The state after the block permutation: no block waits to be moved and
    /// every bucket holds its full blocks at the front of its slots.
    pub open spec fn permuted(
        self,
        keys: Seq<u64>,
        ovf: Seq<u64>,
        overflow: bool,
        level: int,
    ) -> bool {
        &&& self.wf()
        &&& keys.len() == self.len
        &&& 0 <= level < 8
        &&& self.placed_ok(keys, level)
        &&& self.overflow_ok(ovf, overflow, level)
        &&& forall|b: int| 0 <= b < 256 ==> #[trigger] self.settled(b)
    }
}

/// The slots of a lower bucket end before those of a higher bucket start.
pub proof fn lemma_regions_ordered(lay: Layout, a: int, b: int)
    requires
        lay.wf(),
        0 <= a < b < 256,
    ensures
        lay.stops[a] <= lay.starts[b],
    decreases b - a,
{
    if a + 1 == b {
        assert(lay.bucket_ok(a));
    } else {
        lemma_regions_ordered(lay, a, b - 1);
        assert(lay.bucket_ok(b - 1));
    }
}

/// All slots lie between the start of the range and its block-aligned end.
pub proof fn lemma_region_bounds(lay: Layout, b: int)
    requires
        lay.wf(),
        0 <= b < 256,
    ensures
        0 <= lay.starts[b] <= lay.stops[b] <= align_up(lay.len),
        align_up(lay.len) <= lay.cap() + 128,
        lay.cap() <= lay.len <= align_up(lay.len),
        lay.cap() % 128 == 0,
{
    assert(lay.bucket_ok(b));
    if b > 0 {
        lemma_regions_ordered(lay, 0, b);
        assert(lay.bucket_ok(0));
    }
    if b < 255 {
        lemma_regions_ordered(lay, b, 255);
        assert(lay.bucket_ok(255));
    }
}

/// A range whose length is no multiple of the block size has a bucket that
/// owns its last slot.
pub proof fn lemma_find_last_slot_owner(lay: Layout, upto: int) -> (d: int)
    requires
        lay.wf(),
        lay.len % 128 != 0,
        0 <= upto < 256,
        lay.cap() < lay.stops[upto],
    ensures
        0 <= d <= upto,
        lay.owns_last_slot(d),
    decreases upto,
{
    assert(lay.bucket_ok(upto));
    if lay.starts[upto] <= lay.cap() {
        upto
    } else {
        assert(upto > 0) by {
            assert(lay.starts[0] == 0);
        }
        assert(lay.bucket_ok(upto - 1));
        lemma_find_last_slot_owner(lay, upto - 1)
    }
}

/// Only one bucket owns the last slot.
pub proof fn lemma_last_slot_owner_unique(lay: Layout, a: int, b: int)
    requires
        lay.wf(),
        0 <= a < 256,
        0 <= b < 256,
        lay.owns_last_slot(a),
        lay.owns_last_slot(b),
    ensures
        a == b,
{
    if a < b {
        lemma_regions_ordered(lay, a, b);
    } else if b < a {
        lemma_regions_ordered(lay, b, a);
    }
}

/// Changing keys inside the slots of bucket `d` leaves the blocks of the other
/// buckets as they are.
pub proof fn lemma_other_parts_kept(
    lay: Layout,
    after: Layout,
    keys: Seq<u64>,
    keys_after: Seq<u64>,
    d: int,
)
    requires
        lay.wf(),
        after.wf(),
        0 <= d < 256,
        keys.len() == lay.len,
        keys_after.len() == lay.len,
        after.len == lay.len,
        after.starts == lay.starts,
        after.stops == lay.stops,
        forall|b: int| 0 <= b < 256 && b != d ==> after.writes[b] == lay.writes[b],
        forall|b: int| 0 <= b < 256 && b != d ==> after.reads[b] == lay.reads[b],
        forall|p: int|
            0 <= p < keys.len() && !(lay.starts[d] <= p < lay.stops[d]) ==> keys_after[p] == keys[p],
    ensures
        forall|b: int|
            0 <= b < 256 && b != d ==> #[trigger] after.live_part(keys_after, b) == lay.live_part(
                keys,
                b,
            ),
        forall|b: int|
            0 <= b < 256 && b != d ==> #[trigger] after.placed_part(keys_after, b)
                == lay.placed_part(keys, b),
{
    assert forall|b: int| 0 <= b < 256 && b != d implies #[trigger] after.live_part(keys_after, b)
        == lay.live_part(keys, b) by {
        lemma_region_bounds(lay, b);
        if b < d {
            lemma_regions_ordered(lay, b, d);
        } else {
            lemma_regions_ordered(lay, d, b);
        }
        assert(lay.bucket_ok(b));
        assert(after.live_part(keys_after, b) =~= lay.live_part(keys, b));
    }
    assert forall|b: int| 0 <= b < 256 && b != d implies #[trigger] after.placed_part(
        keys_after,
        b,
    ) == lay.placed_part(keys, b) by {
        lemma_region_bounds(lay, b);
        if b < d {
            lemma_regions_ordered(lay, b, d);
        } else {
            lemma_regions_ordered(lay, d, b);
        }
        assert(lay.bucket_ok(b));
        assert(after.placed_part(keys_after, b) =~= lay.placed_part(keys, b));
    }
}

} // verus!
