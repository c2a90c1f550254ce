//! The steps of the block permutation, each proved to keep the invariant of
//! the layout.

use crate::layout::{lemma_find_last_slot_owner, lemma_last_slot_owner_unique, lemma_other_parts_kept, lemma_region_bounds, lemma_regions_ordered, min_int, Layout};
use crate::model::{align_down, all_in_bucket, blocks_uniform, bucket_of, count_in_bucket, is_permutation, lemma_concat_multiset, lemma_count_all_in_bucket, lemma_count_concat, lemma_count_permutation};
use crate::parts::{
    concat_parts, lemma_parts_count_lower, lemma_parts_count_sorted_out, lemma_parts_of_ranges,
    lemma_parts_update,
};
use vstd::prelude::*;

verus! {

/// The keys of the overflow buffer that count: all of them once a block has
/// been diverted there, none before.
pub open spec fn ovf_part(ovf: Seq<u64>, overflow: bool) -> Seq<u64> {
    if overflow {
        ovf
    } else {
        Seq::<u64>::empty()
    }
}

/// A step that exchanges keys between one part, the hand and the overflow
/// buffer, and keeps what the three hold together, keeps all keys.
pub proof fn lemma_exchange_keeps_keys(
    whole: Seq<u64>,
    whole_after: Seq<u64>,
    part: Seq<u64>,
    part_after: Seq<u64>,
    rest: Seq<u64>,
    rest_after: Seq<u64>,
    src: Seq<u64>,
)
    requires
        whole_after.to_multiset().add(part.to_multiset()) == whole.to_multiset().add(
            part_after.to_multiset(),
        ),
        is_permutation(part_after + rest_after, part + rest),
        is_permutation(whole + rest, src),
    ensures
        is_permutation(whole_after + rest_after, src),
{
    broadcast use vstd::multiset::group_multiset_axioms;

    lemma_concat_multiset(whole, rest);
    lemma_concat_multiset(whole_after, rest_after);
    lemma_concat_multiset(part, rest);
    lemma_concat_multiset(part_after, rest_after);
    let w = whole.to_multiset();
    let wa = whole_after.to_multiset();
    let p = part.to_multiset();
    let pa = part_after.to_multiset();
    let r = rest.to_multiset();
    let ra = rest_after.to_multiset();
    assert forall|v: u64| (whole_after + rest_after).to_multiset().count(v) == src.to_multiset().count(
        v,
    ) by {
        assert(wa.add(p).count(v) == w.add(pa).count(v));
        assert(wa.add(p).count(v) == wa.count(v) + p.count(v));
        assert(w.add(pa).count(v) == w.count(v) + pa.count(v));
        assert((part_after + rest_after).to_multiset().count(v) == (part + rest).to_multiset().count(
            v,
        ));
        assert(pa.add(ra).count(v) == pa.count(v) + ra.count(v));
        assert(p.add(r).count(v) == p.count(v) + r.count(v));
        assert((whole + rest).to_multiset().count(v) == src.to_multiset().count(v));
        assert(w.add(r).count(v) == w.count(v) + r.count(v));
        assert(wa.add(ra).count(v) == wa.count(v) + ra.count(v));
    }
    assert((whole_after + rest_after).to_multiset() =~= src.to_multiset());
}

/// Exchanging the middle piece of a sequence for another one.
pub proof fn lemma_swap_middle(
    left: Seq<u64>,
    old_mid: Seq<u64>,
    new_mid: Seq<u64>,
    right: Seq<u64>,
    tail: Seq<u64>,
)
    ensures
        is_permutation(
            (left + new_mid + right) + (old_mid + tail),
            (left + old_mid + right) + (new_mid + tail),
        ),
{
    broadcast use vstd::multiset::group_multiset_axioms;

    lemma_concat_multiset(left + new_mid + right, old_mid + tail);
    lemma_concat_multiset(left + old_mid + right, new_mid + tail);
    lemma_concat_multiset(left + new_mid, right);
    lemma_concat_multiset(left + old_mid, right);
    lemma_concat_multiset(left, new_mid);
    lemma_concat_multiset(left, old_mid);
    lemma_concat_multiset(old_mid, tail);
    lemma_concat_multiset(new_mid, tail);
    let a = (left + new_mid + right) + (old_mid + tail);
    let b = (left + old_mid + right) + (new_mid + tail);
    let l = left.to_multiset();
    let o = old_mid.to_multiset();
    let m = new_mid.to_multiset();
    let r = right.to_multiset();
    let t = tail.to_multiset();
    assert forall|v: u64| a.to_multiset().count(v) == b.to_multiset().count(v) by {
        assert(a.to_multiset().count(v) == (left + new_mid + right).to_multiset().count(v) + (
        old_mid + tail).to_multiset().count(v)) by {
            assert((left + new_mid + right).to_multiset().add(
                (old_mid + tail).to_multiset(),
            ).count(v) == (left + new_mid + right).to_multiset().count(v) + (old_mid
                + tail).to_multiset().count(v));
        }
        assert(b.to_multiset().count(v) == (left + old_mid + right).to_multiset().count(v) + (
        new_mid + tail).to_multiset().count(v)) by {
            assert((left + old_mid + right).to_multiset().add(
                (new_mid + tail).to_multiset(),
            ).count(v) == (left + old_mid + right).to_multiset().count(v) + (new_mid
                + tail).to_multiset().count(v));
        }
        assert((left + new_mid + right).to_multiset().count(v) == l.count(v) + m.count(v)
            + r.count(v)) by {
            assert((left + new_mid).to_multiset().add(r).count(v) == (left
                + new_mid).to_multiset().count(v) + r.count(v));
            assert(l.add(m).count(v) == l.count(v) + m.count(v));
        }
        assert((left + old_mid + right).to_multiset().count(v) == l.count(v) + o.count(v)
            + r.count(v)) by {
            assert((left + old_mid).to_multiset().add(r).count(v) == (left
                + old_mid).to_multiset().count(v) + r.count(v));
            assert(l.add(o).count(v) == l.count(v) + o.count(v));
        }
        assert((old_mid + tail).to_multiset().count(v) == o.count(v) + t.count(v)) by {
            assert(o.add(t).count(v) == o.count(v) + t.count(v));
        }
        assert((new_mid + tail).to_multiset().count(v) == m.count(v) + t.count(v)) by {
            assert(m.add(t).count(v) == m.count(v) + t.count(v));
        }
    }
    assert(a.to_multiset() =~= b.to_multiset());
}

/// While a block is carried to bucket `d`, that bucket has a free slot inside
/// the range or at its cut-off end.
pub proof fn lemma_room_for_block(
    lay: Layout,
    keys: Seq<u64>,
    hand: Seq<u64>,
    ovf: Seq<u64>,
    overflow: bool,
    src: Seq<u64>,
    level: int,
    d: int,
)
    requires
        lay.permuting(keys, hand, ovf, overflow, src, level),
        hand.len() == 128,
        d == bucket_of(hand[0], level),
        0 <= d < 256,
    ensures
        lay.writes[d] + 128 <= lay.stops[d],
        lay.writes[d] <= lay.cap(),
        lay.writes[d] >= lay.cap() ==> !overflow && lay.len % 128 != 0 && lay.owns_last_slot(d),
{
    let whole = concat_parts(lay.live_parts(keys));
    let extra = ovf_part(ovf, overflow);
    let cat = whole + hand + extra;
    lemma_region_bounds(lay, d);
    lemma_count_permutation(cat, src, level, d);
    lemma_count_concat(whole + hand, extra, level, d);
    lemma_count_concat(whole, hand, level, d);
    lemma_count_all_in_bucket(hand, level, d, d);
    lemma_parts_count_lower(lay.live_parts(keys), d, level, d);
    assert(lay.live_parts(keys)[d] == lay.live_part(keys, d));
    assert(lay.bucket_ok(d));
    let placed = lay.placed_part(keys, d);
    let waiting = keys.subrange(lay.placed_end(d), lay.lim(d));
    assert(lay.live_part(keys, d) =~= placed + waiting);
    lemma_count_concat(placed, waiting, level, d);
    assert(all_in_bucket(placed, level, d));
    lemma_count_all_in_bucket(placed, level, d, d);
    assert(count_in_bucket(src, level, d) == lay.fulls[d] * 128);
    let in_ovf = count_in_bucket(extra, level, d) as int;
    if lay.starts[d] <= lay.cap() < lay.writes[d] {
        assert(lay.owns_last_slot(d));
        if overflow {
            assert(all_in_bucket(ovf, level, d));
            lemma_count_all_in_bucket(ovf, level, d, d);
        } else {
            assert(lay.inside(d));
        }
    }
    lemma_room_arithmetic(
        lay.starts[d],
        lay.stops[d],
        lay.writes[d],
        lay.cap(),
        lay.fulls[d] * 128,
        count_in_bucket(whole, level, d) as int,
        in_ovf,
    );
    if lay.writes[d] >= lay.cap() {
        assert(lay.owns_last_slot(d));
        if overflow {
            assert(lay.writes[d] == lay.cap() + 128);
        }
    }
}

proof fn lemma_room_arithmetic(
    start: int,
    stop: int,
    write: int,
    cap: int,
    full_keys: int,
    in_slots: int,
    in_ovf: int,
)
    requires
        0 <= start <= write <= stop <= cap + 128,
        start % 128 == 0,
        stop % 128 == 0,
        write % 128 == 0,
        cap % 128 == 0,
        full_keys <= stop - start,
        in_slots >= min_int(write, cap) - min_int(start, cap),
        in_ovf >= 0,
        in_slots + 128 + in_ovf == full_keys,
        start <= cap < write ==> in_ovf == 128,
    ensures
        write + 128 <= stop,
        write <= cap,
{
}

proof fn lemma_settled_arithmetic(
    start: int,
    stop: int,
    write: int,
    cap: int,
    full_keys: int,
    in_ovf: int,
)
    requires
        0 <= start <= write <= stop <= cap + 128,
        start % 128 == 0,
        stop % 128 == 0,
        write % 128 == 0,
        cap % 128 == 0,
        min_int(write, cap) - min_int(start, cap) + in_ovf == full_keys,
        start <= cap < write ==> in_ovf == 128,
        !(start <= cap < write) ==> in_ovf == 0,
    ensures
        write == start + full_keys,
{
}

/// `after` is `lay` with the read cursor of bucket `b` moved one slot down.
pub open spec fn read_retreated(lay: Layout, after: Layout, b: int) -> bool {
    after == (Layout { reads: lay.reads.update(b, lay.reads[b] - 128), ..lay })
}

/// Moving a read cursor down keeps the slots in shape.
proof fn lemma_retreat_shape(
    lay: Layout,
    after: Layout,
    keys: Seq<u64>,
    ovf: Seq<u64>,
    overflow: bool,
    level: int,
    b: int,
)
    requires
        lay.shape(keys, ovf, overflow, level),
        0 <= b < 256,
        lay.starts[b] <= lay.reads[b],
        read_retreated(lay, after, b),
    ensures
        after.shape(keys, ovf, overflow, level),
{
    assert forall|e: int| 0 <= e < 256 implies #[trigger] after.bucket_ok(e) by {
        assert(lay.bucket_ok(e));
    }
    assert forall|e: int| 0 <= e < 256 implies all_in_bucket(
        #[trigger] after.placed_part(keys, e),
        level,
        e,
    ) by {
        assert(after.placed_part(keys, e) == lay.placed_part(keys, e));
    }
    if overflow {
        assert forall|e: int| 0 <= e < 256 && #[trigger] after.owns_last_slot(e) implies after.writes[e]
            == after.cap() + 128 && all_in_bucket(ovf, level, e) by {
            assert(lay.owns_last_slot(e));
        }
    } else {
        assert forall|e: int| 0 <= e < 256 implies #[trigger] after.inside(e) by {
            assert(lay.inside(e));
        }
    }
    assert forall|e: int, q: int| 0 <= e < 256 && #[trigger] after.waiting(e, q) implies bucket_of(
        keys[q],
        level,
    ) == bucket_of(keys[align_down(q)], level) by {
        assert(lay.waiting(e, q));
    }
}

/// Reading from a bucket whose waiting blocks are used up only moves its read cursor.
pub proof fn lemma_step_read_none(
    lay: Layout,
    after: Layout,
    keys: Seq<u64>,
    ovf: Seq<u64>,
    overflow: bool,
    src: Seq<u64>,
    level: int,
    b: int,
)
    requires
        lay.permuting(keys, Seq::<u64>::empty(), ovf, overflow, src, level),
        0 <= b < 256,
        lay.reads[b] <= lay.writes[b],
        lay.starts[b] <= lay.reads[b],
        read_retreated(lay, after, b),
    ensures
        after.permuting(keys, Seq::<u64>::empty(), ovf, overflow, src, level),
{
    lemma_retreat_shape(lay, after, keys, ovf, overflow, level, b);
    assert forall|e: int| 0 <= e < 256 implies #[trigger] after.live_part(keys, e) == lay.live_part(
        keys,
        e,
    ) by {}
    assert(after.live_parts(keys) =~= lay.live_parts(keys));
}

/// Taking the last waiting block of bucket `b` into the hand.
pub proof fn lemma_step_read_block(
    lay: Layout,
    after: Layout,
    keys: Seq<u64>,
    hand: Seq<u64>,
    ovf: Seq<u64>,
    overflow: bool,
    src: Seq<u64>,
    level: int,
    b: int,
)
    requires
        lay.permuting(keys, Seq::<u64>::empty(), ovf, overflow, src, level),
        0 <= b < 256,
        lay.reads[b] > lay.writes[b],
        read_retreated(lay, after, b),
        hand == keys.subrange(lay.reads[b] - 128, lay.reads[b]),
    ensures
        after.permuting(keys, hand, ovf, overflow, src, level),
{
    let none = Seq::<u64>::empty();
    let extra = ovf_part(ovf, overflow);
    lemma_region_bounds(lay, b);
    assert(lay.bucket_ok(b));
    let p = lay.reads[b] - 128;
    assert(p >= lay.writes[b]);
    assert(lay.reads[b] <= lay.flushed);
    lemma_retreat_shape(lay, after, keys, ovf, overflow, level, b);
    assert(lay.lim(b) == lay.reads[b]);
    assert(after.lim(b) == p);
    assert(lay.live_part(keys, b) =~= after.live_part(keys, b) + hand);
    assert(after.live_parts(keys) =~= lay.live_parts(keys).update(b, after.live_part(keys, b))) by {
        assert forall|e: int| 0 <= e < 256 implies #[trigger] after.live_parts(keys)[e]
            == lay.live_parts(keys).update(b, after.live_part(keys, b))[e] by {
            if e != b {
                assert(after.live_part(keys, e) == lay.live_part(keys, e));
            }
        }
    }
    assert(lay.live_parts(keys)[b] == lay.live_part(keys, b));
    lemma_parts_update(lay.live_parts(keys), b, after.live_part(keys, b));
    let whole = concat_parts(lay.live_parts(keys));
    let whole_after = concat_parts(after.live_parts(keys));
    assert(after.live_part(keys, b) + (hand + extra) =~= lay.live_part(keys, b) + (none + extra));
    assert(whole + none + extra =~= whole + (none + extra));
    lemma_exchange_keeps_keys(
        whole,
        whole_after,
        lay.live_part(keys, b),
        after.live_part(keys, b),
        none + extra,
        hand + extra,
        src,
    );
    assert(whole_after + hand + extra =~= whole_after + (hand + extra));
    assert forall|j: int| 0 <= j < 128 implies bucket_of(#[trigger] hand[j], level) == bucket_of(
        hand[0],
        level,
    ) by {
        let q = p + j;
        assert(hand[j] == keys[q]);
        assert(lay.waiting(b, q));
        assert(align_down(q) == p);
        assert(hand[0] == keys[p]);
    }
}

/// `after` is `lay` with the write cursor of bucket `d` moved one slot up.
pub open spec fn write_advanced(lay: Layout, after: Layout, d: int) -> bool {
    after == (Layout { writes: lay.writes.update(d, lay.writes[d] + 128), ..lay })
}

/// `keys_after` is `keys` with the block at `w` replaced by `block`.
pub open spec fn block_written(keys: Seq<u64>, keys_after: Seq<u64>, w: int, block: Seq<u64>) -> bool {
    &&& keys_after.len() == keys.len()
    &&& block.len() == 128
    &&& 0 <= w
    &&& w + 128 <= keys.len()
    &&& forall|p: int| 0 <= p < keys.len() && !(w <= p < w + 128) ==> keys_after[p] == keys[p]
    &&& forall|p: int| w <= p < w + 128 ==> keys_after[p] == block[p - w]
}

/// A key that waits in a slot at or above the new write cursors, and the first
/// key of its block, are not touched by a write to the slot at the old write
/// cursor of bucket `d`.
proof fn lemma_waiting_kept(
    lay: Layout,
    keys: Seq<u64>,
    keys_after: Seq<u64>,
    d: int,
    e: int,
    q: int,
)
    requires
        lay.wf(),
        keys.len() == lay.len,
        keys_after.len() == keys.len(),
        0 <= d < 256,
        0 <= e < 256,
        lay.writes[d] + 128 <= lay.stops[d],
        forall|p: int|
            0 <= p < keys.len() && !(lay.writes[d] <= p < lay.writes[d] + 128) ==> keys_after[p]
                == keys[p],
        lay.writes[e] <= q < lay.reads[e],
        e == d ==> lay.writes[d] + 128 <= q,
    ensures
        0 <= align_down(q) <= q < keys.len(),
        keys_after[q] == keys[q],
        keys_after[align_down(q)] == keys[align_down(q)],
{
    lemma_region_bounds(lay, e);
    lemma_region_bounds(lay, d);
    assert(lay.bucket_ok(e));
    assert(lay.bucket_ok(d));
    assert(lay.reads[e] <= lay.flushed);
    assert(lay.reads[e] <= lay.stops[e]);
    assert(align_down(q) >= lay.writes[e]);
    if e < d {
        lemma_regions_ordered(lay, e, d);
    } else if d < e {
        lemma_regions_ordered(lay, d, e);
    }
}

/// Moving the write cursor of bucket `d` over a slot inside the range that now
/// holds a block of the bucket keeps the slots in shape.
proof fn lemma_advance_shape(
    lay: Layout,
    after: Layout,
    keys: Seq<u64>,
    keys_after: Seq<u64>,
    ovf: Seq<u64>,
    overflow: bool,
    level: int,
    d: int,
)
    requires
        lay.shape(keys, ovf, overflow, level),
        0 <= d < 256,
        lay.writes[d] + 128 <= lay.stops[d],
        lay.writes[d] + 128 <= lay.cap(),
        write_advanced(lay, after, d),
        keys_after.len() == keys.len(),
        forall|p: int|
            0 <= p < keys.len() && !(lay.writes[d] <= p < lay.writes[d] + 128) ==> keys_after[p]
                == keys[p],
        all_in_bucket(keys_after.subrange(lay.writes[d], lay.writes[d] + 128), level, d),
    ensures
        after.shape(keys_after, ovf, overflow, level),
        forall|e: int|
            0 <= e < 256 && e != d ==> #[trigger] after.live_part(keys_after, e) == lay.live_part(
                keys,
                e,
            ),
{
    let w = lay.writes[d];
    lemma_region_bounds(lay, d);
    assert(lay.bucket_ok(d));
    assert forall|e: int| 0 <= e < 256 implies #[trigger] after.bucket_ok(e) by {
        assert(lay.bucket_ok(e));
    }
    lemma_other_parts_kept(lay, after, keys, keys_after, d);
    assert forall|e: int| 0 <= e < 256 implies all_in_bucket(
        #[trigger] after.placed_part(keys_after, e),
        level,
        e,
    ) by {
        if e == d {
            let grown = after.placed_part(keys_after, d);
            let placed = lay.placed_part(keys, d);
            let block = keys_after.subrange(w, w + 128);
            assert(all_in_bucket(placed, level, d));
            assert forall|j: int| 0 <= j < grown.len() implies bucket_of(
                #[trigger] grown[j],
                level,
            ) == d by {
                if j < placed.len() {
                    assert(grown[j] == placed[j]);
                } else {
                    assert(grown[j] == block[j - placed.len()]);
                }
            }
        } else {
            assert(after.placed_part(keys_after, e) == lay.placed_part(keys, e));
            assert(all_in_bucket(lay.placed_part(keys, e), level, e));
        }
    }
    if overflow {
        assert forall|e: int| 0 <= e < 256 && #[trigger] after.owns_last_slot(e) implies after.writes[e]
            == after.cap() + 128 && all_in_bucket(ovf, level, e) by {
            assert(lay.owns_last_slot(e));
        }
    } else {
        assert forall|e: int| 0 <= e < 256 implies #[trigger] after.inside(e) by {
            assert(lay.inside(e));
        }
    }
    assert forall|e: int, q: int| 0 <= e < 256 && #[trigger] after.waiting(e, q) implies bucket_of(
        keys_after[q],
        level,
    ) == bucket_of(keys_after[align_down(q)], level) by {
        assert(lay.waiting(e, q));
        lemma_waiting_kept(lay, keys, keys_after, d, e, q);
    }
}

/// The waiting block at the write cursor of bucket `d` holds keys of the bucket
/// of its first key, and lies inside the range.
proof fn lemma_waiting_block(lay: Layout, keys: Seq<u64>, ovf: Seq<u64>, overflow: bool, level: int, d: int)
    requires
        lay.shape(keys, ovf, overflow, level),
        0 <= d < 256,
        lay.writes[d] < lay.reads[d],
    ensures
        0 <= lay.writes[d],
        lay.writes[d] + 128 <= lay.reads[d],
        lay.reads[d] <= lay.stops[d],
        lay.reads[d] <= lay.flushed,
        lay.flushed <= lay.cap() <= keys.len(),
        lay.lo(d) == lay.starts[d],
        0 <= lay.starts[d] <= lay.writes[d],
        lay.lim(d) == lay.reads[d],
        all_in_bucket(
            keys.subrange(lay.writes[d], lay.writes[d] + 128),
            level,
            bucket_of(keys[lay.writes[d]], level),
        ),
{
    let w = lay.writes[d];
    lemma_region_bounds(lay, d);
    assert(lay.bucket_ok(d));
    let block = keys.subrange(w, w + 128);
    assert forall|j: int| 0 <= j < block.len() implies bucket_of(#[trigger] block[j], level)
        == bucket_of(keys[w], level) by {
        let q = w + j;
        assert(block[j] == keys[q]);
        assert(lay.waiting(d, q));
        assert(align_down(q) == w);
    }
}

/// Passing over a waiting block that already stands in its own bucket.
pub proof fn lemma_step_skip(
    lay: Layout,
    after: Layout,
    keys: Seq<u64>,
    hand: Seq<u64>,
    ovf: Seq<u64>,
    overflow: bool,
    src: Seq<u64>,
    level: int,
    d: int,
)
    requires
        lay.permuting(keys, hand, ovf, overflow, src, level),
        0 <= d < 256,
        lay.writes[d] < lay.reads[d],
        bucket_of(keys[lay.writes[d]], level) == d,
        write_advanced(lay, after, d),
    ensures
        after.permuting(keys, hand, ovf, overflow, src, level),
{
    lemma_waiting_block(lay, keys, ovf, overflow, level, d);
    lemma_advance_shape(lay, after, keys, keys, ovf, overflow, level, d);
    assert(after.live_part(keys, d) == lay.live_part(keys, d));
    assert(after.live_parts(keys) =~= lay.live_parts(keys)) by {
        assert forall|e: int| 0 <= e < 256 implies #[trigger] after.live_parts(keys)[e]
            == lay.live_parts(keys)[e] by {
            if e != d {
                assert(after.live_part(keys, e) == lay.live_part(keys, e));
            }
        }
    }
}

/// Putting the block in the hand into a slot that holds a waiting block, and
/// taking that block into the hand.
pub proof fn lemma_step_swap(
    lay: Layout,
    after: Layout,
    keys: Seq<u64>,
    keys_after: Seq<u64>,
    hand: Seq<u64>,
    hand_after: Seq<u64>,
    ovf: Seq<u64>,
    overflow: bool,
    src: Seq<u64>,
    level: int,
    d: int,
)
    requires
        lay.permuting(keys, hand, ovf, overflow, src, level),
        hand.len() == 128,
        d == bucket_of(hand[0], level),
        0 <= d < 256,
        lay.writes[d] < lay.reads[d],
        write_advanced(lay, after, d),
        block_written(keys, keys_after, lay.writes[d], hand),
        hand_after == keys.subrange(lay.writes[d], lay.writes[d] + 128),
    ensures
        after.permuting(keys_after, hand_after, ovf, overflow, src, level),
{
    let w = lay.writes[d];
    let extra = ovf_part(ovf, overflow);
    lemma_waiting_block(lay, keys, ovf, overflow, level, d);
    assert(keys_after.subrange(w, w + 128) =~= hand);
    lemma_advance_shape(lay, after, keys, keys_after, ovf, overflow, level, d);
    let left = keys.subrange(lay.lo(d), w);
    let right = keys.subrange(w + 128, lay.lim(d));
    assert(after.lo(d) == lay.lo(d));
    assert(after.lim(d) == lay.lim(d));
    assert(lay.live_part(keys, d) =~= left + hand_after + right);
    assert(after.live_part(keys_after, d) =~= left + hand + right);
    assert(after.live_parts(keys_after) =~= lay.live_parts(keys).update(
        d,
        after.live_part(keys_after, d),
    )) by {
        assert forall|e: int| 0 <= e < 256 implies #[trigger] after.live_parts(keys_after)[e]
            == lay.live_parts(keys).update(d, after.live_part(keys_after, d))[e] by {
            if e != d {
                assert(after.live_part(keys_after, e) == lay.live_part(keys, e));
            }
        }
    }
    assert(lay.live_parts(keys)[d] == lay.live_part(keys, d));
    lemma_parts_update(lay.live_parts(keys), d, after.live_part(keys_after, d));
    lemma_swap_middle(left, hand_after, hand, right, extra);
    let whole = concat_parts(lay.live_parts(keys));
    let whole_after = concat_parts(after.live_parts(keys_after));
    assert(whole + hand + extra =~= whole + (hand + extra));
    lemma_exchange_keeps_keys(
        whole,
        whole_after,
        lay.live_part(keys, d),
        after.live_part(keys_after, d),
        hand + extra,
        hand_after + extra,
        src,
    );
    assert(whole_after + hand_after + extra =~= whole_after + (hand_after + extra));
    assert(hand_after[0] == keys[w]);
}

/// Putting the block in the hand into an empty slot inside the range.
pub proof fn lemma_step_place(
    lay: Layout,
    after: Layout,
    keys: Seq<u64>,
    keys_after: Seq<u64>,
    hand: Seq<u64>,
    ovf: Seq<u64>,
    overflow: bool,
    src: Seq<u64>,
    level: int,
    d: int,
)
    requires
        lay.permuting(keys, hand, ovf, overflow, src, level),
        hand.len() == 128,
        d == bucket_of(hand[0], level),
        0 <= d < 256,
        lay.writes[d] >= lay.reads[d],
        lay.writes[d] < lay.cap(),
        lay.writes[d] + 128 <= lay.stops[d],
        write_advanced(lay, after, d),
        block_written(keys, keys_after, lay.writes[d], hand),
    ensures
        after.permuting(keys_after, Seq::<u64>::empty(), ovf, overflow, src, level),
{
    let w = lay.writes[d];
    let none = Seq::<u64>::empty();
    let extra = ovf_part(ovf, overflow);
    lemma_region_bounds(lay, d);
    assert(lay.bucket_ok(d));
    assert(keys_after.subrange(w, w + 128) =~= hand);
    lemma_advance_shape(lay, after, keys, keys_after, ovf, overflow, level, d);
    assert(lay.lim(d) == w);
    assert(after.lim(d) == w + 128);
    assert(after.live_part(keys_after, d) =~= lay.live_part(keys, d) + hand);
    assert(after.live_parts(keys_after) =~= lay.live_parts(keys).update(
        d,
        after.live_part(keys_after, d),
    )) by {
        assert forall|e: int| 0 <= e < 256 implies #[trigger] after.live_parts(keys_after)[e]
            == lay.live_parts(keys).update(d, after.live_part(keys_after, d))[e] by {
            if e != d {
                assert(after.live_part(keys_after, e) == lay.live_part(keys, e));
            }
        }
    }
    assert(lay.live_parts(keys)[d] == lay.live_part(keys, d));
    lemma_parts_update(lay.live_parts(keys), d, after.live_part(keys_after, d));
    let whole = concat_parts(lay.live_parts(keys));
    let whole_after = concat_parts(after.live_parts(keys_after));
    assert(whole + hand + extra =~= whole + (hand + extra));
    assert(after.live_part(keys_after, d) + (none + extra) =~= lay.live_part(keys, d) + (hand
        + extra));
    lemma_exchange_keeps_keys(
        whole,
        whole_after,
        lay.live_part(keys, d),
        after.live_part(keys_after, d),
        hand + extra,
        none + extra,
        src,
    );
    assert(whole_after + none + extra =~= whole_after + (none + extra));
}

/// Diverting the block in the hand to the overflow buffer, because its slot is
/// cut short by the end of the range.
pub proof fn lemma_step_overflow(
    lay: Layout,
    after: Layout,
    keys: Seq<u64>,
    hand: Seq<u64>,
    ovf: Seq<u64>,
    src: Seq<u64>,
    level: int,
    d: int,
)
    requires
        lay.permuting(keys, hand, ovf, false, src, level),
        hand.len() == 128,
        d == bucket_of(hand[0], level),
        0 <= d < 256,
        lay.writes[d] >= lay.reads[d],
        lay.writes[d] == lay.cap(),
        lay.writes[d] + 128 <= lay.stops[d],
        lay.len % 128 != 0,
        write_advanced(lay, after, d),
    ensures
        after.permuting(keys, Seq::<u64>::empty(), hand, true, src, level),
{
    let none = Seq::<u64>::empty();
    lemma_region_bounds(lay, d);
    assert(lay.bucket_ok(d));
    assert forall|e: int| 0 <= e < 256 implies #[trigger] after.bucket_ok(e) by {
        assert(lay.bucket_ok(e));
    }
    assert(lay.owns_last_slot(d));
    assert forall|e: int| 0 <= e < 256 && #[trigger] after.owns_last_slot(e) implies after.writes[e]
        == after.cap() + 128 && all_in_bucket(hand, level, e) by {
        assert(lay.owns_last_slot(e));
        lemma_last_slot_owner_unique(lay, d, e);
    }
    assert forall|e: int| 0 <= e < 256 implies #[trigger] after.live_part(keys, e) == lay.live_part(
        keys,
        e,
    ) by {}
    assert(after.live_parts(keys) =~= lay.live_parts(keys));
    let whole = concat_parts(lay.live_parts(keys));
    assert(whole + none + hand =~= whole + hand + none);
    assert forall|e: int| 0 <= e < 256 implies all_in_bucket(
        #[trigger] after.placed_part(keys, e),
        level,
        e,
    ) by {
        assert(after.placed_part(keys, e) == lay.placed_part(keys, e));
        assert(all_in_bucket(lay.placed_part(keys, e), level, e));
    }
    assert forall|e: int, q: int| 0 <= e < 256 && #[trigger] after.waiting(e, q) implies bucket_of(
        keys[q],
        level,
    ) == bucket_of(keys[align_down(q)], level) by {
        assert(lay.waiting(e, q));
    }
}

/// The cursors of bucket `b` stand where the permutation starts from.
pub open spec fn at_start(lay: Layout, b: int) -> bool {
    lay.writes[b] == lay.starts[b] && lay.reads[b] == lay.unread_end(b)
}

/// No block of bucket `b` waits to be moved.
pub open spec fn drained(lay: Layout, b: int) -> bool {
    lay.reads[b] <= lay.writes[b]
}

/// Right after classification the invariant of the permutation holds with an
/// empty hand.
pub proof fn lemma_permute_start(lay: Layout, keys: Seq<u64>, ovf: Seq<u64>, level: int)
    requires
        lay.wf(),
        keys.len() == lay.len,
        ovf.len() == 128,
        0 <= level < 8,
        forall|b: int| 0 <= b < 256 ==> #[trigger] at_start(lay, b),
        blocks_uniform(keys.subrange(0, lay.flushed), level),
        forall|d: int|
            0 <= d < 256 ==> #[trigger] count_in_bucket(keys.subrange(0, lay.flushed), level, d)
                == lay.fulls[d] * 128,
    ensures
        lay.permuting(keys, Seq::<u64>::empty(), ovf, false, keys.subrange(0, lay.flushed), level),
{
    let none = Seq::<u64>::empty();
    let c = lay.flushed;
    let src = keys.subrange(0, c);
    assert forall|b: int| 0 <= b < 256 implies all_in_bucket(
        #[trigger] lay.placed_part(keys, b),
        level,
        b,
    ) by {
        assert(at_start(lay, b));
        assert(lay.bucket_ok(b));
        lemma_region_bounds(lay, b);
        assert(lay.placed_part(keys, b) =~= none);
    }
    assert forall|b: int| 0 <= b < 256 implies #[trigger] lay.inside(b) by {
        assert(at_start(lay, b));
    }
    assert forall|b: int, q: int| 0 <= b < 256 && #[trigger] lay.waiting(b, q) implies bucket_of(
        keys[q],
        level,
    ) == bucket_of(keys[align_down(q)], level) by {
        assert(at_start(lay, b));
        assert(lay.bucket_ok(b));
        lemma_region_bounds(lay, b);
        assert(0 <= q < c);
        assert(src[q] == keys[q]);
        assert(src[(q / 128) * 128] == keys[align_down(q)]);
    }
    let cuts = Seq::new(257, |b: int| if b < 256 { min_int(lay.starts[b], c) } else { c });
    assert forall|b: int| 0 <= b < 256 implies cuts[b] <= #[trigger] cuts[b + 1] by {
        assert(lay.bucket_ok(b));
        lemma_region_bounds(lay, b);
        if b < 255 {
            assert(lay.bucket_ok(b + 1));
        }
    }
    assert forall|b: int| 0 <= b < 256 implies #[trigger] lay.live_parts(keys)[b] == keys.subrange(
        cuts[b],
        cuts[b + 1],
    ) by {
        assert(at_start(lay, b));
        assert(lay.bucket_ok(b));
        lemma_region_bounds(lay, b);
        if b < 255 {
            assert(lay.bucket_ok(b + 1));
            assert(cuts[b + 1] == min_int(lay.stops[b], c));
        } else {
            assert(cuts[b + 1] == c);
        }
        assert(lay.live_part(keys, b) =~= keys.subrange(cuts[b], cuts[b + 1]));
    }
    assert(cuts[0] == 0);
    lemma_parts_of_ranges(keys, cuts, lay.live_parts(keys));
    assert(concat_parts(lay.live_parts(keys)) + none + none =~= src);
}

/// Once no block waits to be moved, every write cursor stands behind the full
/// blocks of its bucket, and the slots and the overflow buffer together hold
/// the keys that classification wrote back.
pub proof fn lemma_permute_finish(
    lay: Layout,
    keys: Seq<u64>,
    ovf: Seq<u64>,
    overflow: bool,
    src: Seq<u64>,
    level: int,
)
    requires
        lay.permuting(keys, Seq::<u64>::empty(), ovf, overflow, src, level),
        forall|b: int| 0 <= b < 256 ==> #[trigger] drained(lay, b),
    ensures
        lay.permuted(keys, ovf, overflow, level),
        is_permutation(concat_parts(lay.placed_parts(keys)) + ovf_part(ovf, overflow), src),
{
    let none = Seq::<u64>::empty();
    let extra = ovf_part(ovf, overflow);
    assert(lay.live_parts(keys) =~= lay.placed_parts(keys)) by {
        assert forall|b: int| 0 <= b < 256 implies #[trigger] lay.live_parts(keys)[b]
            == lay.placed_parts(keys)[b] by {
            assert(drained(lay, b));
        }
    }
    let whole = concat_parts(lay.placed_parts(keys));
    assert(whole + none + extra =~= whole + extra);
    assert forall|b: int| 0 <= b < 256 implies all_in_bucket(
        #[trigger] lay.placed_parts(keys)[b],
        level,
        b,
    ) by {
        assert(all_in_bucket(lay.placed_part(keys, b), level, b));
    }
    assert forall|d: int| 0 <= d < 256 implies #[trigger] lay.settled(d) by {
        lemma_region_bounds(lay, d);
        assert(lay.bucket_ok(d));
        lemma_parts_count_sorted_out(lay.placed_parts(keys), level, d);
        assert(lay.placed_parts(keys)[d] == lay.placed_part(keys, d));
        lemma_count_permutation(whole + extra, src, level, d);
        lemma_count_concat(whole, extra, level, d);
        assert(count_in_bucket(src, level, d) == lay.fulls[d] * 128);
        if overflow {
            let owner = lemma_find_last_slot_owner(lay, 255);
            assert(lay.owns_last_slot(owner));
            assert(all_in_bucket(ovf, level, owner));
            lemma_count_all_in_bucket(ovf, level, owner, d);
            if lay.starts[d] <= lay.cap() < lay.writes[d] {
                assert(lay.owns_last_slot(d));
                lemma_last_slot_owner_unique(lay, owner, d);
            } else {
                if owner == d {
                    assert(lay.writes[d] == lay.cap() + 128);
                }
            }
        } else {
            assert(lay.inside(d));
            assert(count_in_bucket(extra, level, d) == 0);
        }
        lemma_settled_arithmetic(
            lay.starts[d],
            lay.stops[d],
            lay.writes[d],
            lay.cap(),
            lay.fulls[d] * 128,
            count_in_bucket(extra, level, d) as int,
        );
    }
}

} // verus!
