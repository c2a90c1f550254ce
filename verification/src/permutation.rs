//! Block permutation: the full blocks that classification wrote to the front
//! of the range are moved, block by block, into the slots of their buckets.
//! One block at a time is carried in a swap buffer; it is put down where the
//! next waiting block of its bucket stands, and that block is carried on.

use crate::config::{BLOCKSIZE, K};
use crate::layout::{lemma_region_bounds, lemma_seq_sum_le, lemma_seq_sum_update, seq_sum, Layout};
use crate::model::{align_down, align_up, blocks_uniform, bucket_of, count_in_bucket, is_permutation, lemma_prefix_sum_monotone, lemma_slots_hold_full_blocks, prefix_sum};
use crate::parts::concat_parts;
use crate::sort::find_bucket_ips2ra;
use crate::sorter::{IPS2RaSorter, Task};
use crate::steps::{at_start, drained, lemma_permute_finish, lemma_permute_start, lemma_room_for_block, lemma_step_overflow, lemma_step_place, lemma_step_read_block, lemma_step_read_none, lemma_step_skip, lemma_step_swap, ovf_part, read_retreated, write_advanced};
use crate::store::KeyStore;
use vstd::prelude::*;

verus! {

/// Copies the block of keys at `pos` out of `keys`.
pub fn read_block<S: KeyStore + ?Sized>(keys: &mut S, pos: usize) -> (block: [u64; BLOCKSIZE])
    requires
        old(keys).usable(),
        pos + BLOCKSIZE <= old(keys).keys().len(),
    ensures
        final(keys).usable(),
        final(keys).surroundings() == old(keys).surroundings(),
        final(keys).keys() == old(keys).keys(),
        block@ == old(keys).keys().subrange(pos as int, pos + BLOCKSIZE),
{
    let mut block = [0u64; BLOCKSIZE];
    let n = keys.size();
    let mut j: usize = 0;
    while j < BLOCKSIZE
        invariant
            j <= BLOCKSIZE,
            pos + BLOCKSIZE <= n,
            n == keys.keys().len(),
            keys.usable(),
            keys.surroundings() == old(keys).surroundings(),
            keys.keys() == old(keys).keys(),
            forall|p: int| 0 <= p < j ==> block[p] == keys.keys()[pos + p],
        decreases BLOCKSIZE - j,
    {
        let key = keys.load(pos + j);
        block[j] = key;
        j += 1;
    }
    proof {
        assert(block@ =~= keys.keys().subrange(pos as int, pos + BLOCKSIZE));
    }
    block
}

/// The keys of `piece` stand in `keys` from `pos` on.
pub open spec fn holds_at(keys: Seq<u64>, pos: int, piece: Seq<u64>) -> bool {
    &&& 0 <= pos
    &&& pos + piece.len() <= keys.len()
    &&& forall|j: int| 0 <= j < piece.len() ==> keys[pos + j] == #[trigger] piece[j]
}

/// `b` differs from `a` at most in the positions `lo..hi`.
pub open spec fn same_outside(a: Seq<u64>, b: Seq<u64>, lo: int, hi: int) -> bool {
    &&& a.len() == b.len()
    &&& forall|p: int| 0 <= p < a.len() && !(lo <= p < hi) ==> #[trigger] b[p] == a[p]
}

/// Copies `count` keys of `src`, from `from` on, into `keys` at `pos`.
pub fn write_keys<S: KeyStore + ?Sized>(
    keys: &mut S,
    pos: usize,
    src: &[u64; BLOCKSIZE],
    from: usize,
    count: usize,
)
    requires
        old(keys).usable(),
        pos + count <= old(keys).keys().len(),
        from + count <= BLOCKSIZE,
    ensures
        final(keys).usable(),
        final(keys).surroundings() == old(keys).surroundings(),
        final(keys).keys().len() == old(keys).keys().len(),
        same_outside(old(keys).keys(), final(keys).keys(), pos as int, pos + count),
        holds_at(final(keys).keys(), pos as int, src@.subrange(from as int, from + count)),
        forall|p: int|
            0 <= p < old(keys).keys().len() && !(pos <= p < pos + count) ==> final(keys).keys()[p]
                == old(keys).keys()[p],
        forall|p: int| pos <= p < pos + count ==> final(keys).keys()[p] == src[p - pos + from],
{
    let n = keys.size();
    let mut j: usize = 0;
    while j < count
        invariant
            j <= count,
            pos + count <= n,
            n == keys.keys().len(),
            from + count <= BLOCKSIZE,
            keys.usable(),
            keys.surroundings() == old(keys).surroundings(),
            keys.keys().len() == old(keys).keys().len(),
            forall|p: int|
                0 <= p < keys.keys().len() && !(pos <= p < pos + j) ==> keys.keys()[p] == old(
                    keys,
                ).keys()[p],
            forall|p: int| pos <= p < pos + j ==> keys.keys()[p] == src[p - pos + from],
        decreases count - j,
    {
        keys.store(pos + j, src[from + j]);
        j += 1;
    }
    proof {
        let piece = src@.subrange(from as int, from + count);
        assert forall|j: int| 0 <= j < piece.len() implies keys.keys()[pos + j]
            == #[trigger] piece[j] by {}
    }
}

/// Copies `count` keys inside `keys` from `src` down to `dst`; the two ranges
/// do not overlap.
pub fn move_keys<S: KeyStore + ?Sized>(keys: &mut S, dst: usize, src: usize, count: usize)
    requires
        old(keys).usable(),
        dst + count <= src,
        src + count <= old(keys).keys().len(),
    ensures
        final(keys).usable(),
        final(keys).surroundings() == old(keys).surroundings(),
        final(keys).keys().len() == old(keys).keys().len(),
        same_outside(old(keys).keys(), final(keys).keys(), dst as int, dst + count),
        holds_at(
            final(keys).keys(),
            dst as int,
            old(keys).keys().subrange(src as int, src + count),
        ),
{
    let n = keys.size();
    let mut j: usize = 0;
    while j < count
        invariant
            j <= count,
            dst + count <= src,
            src + count <= n,
            n == keys.keys().len(),
            keys.usable(),
            keys.surroundings() == old(keys).surroundings(),
            keys.keys().len() == old(keys).keys().len(),
            forall|p: int|
                0 <= p < n && !(dst <= p < dst + j) ==> keys.keys()[p] == old(keys).keys()[p],
            forall|p: int| dst <= p < dst + j ==> keys.keys()[p] == old(keys).keys()[p - dst + src],
        decreases count - j,
    {
        let key = keys.load(src + j);
        keys.store(dst + j, key);
        j += 1;
    }
    proof {
        let piece = old(keys).keys().subrange(src as int, src + count);
        assert forall|j: int| 0 <= j < piece.len() implies keys.keys()[dst + j]
            == #[trigger] piece[j] by {}
    }
}

/// Keys that stand outside the positions a step may change still stand there.
pub proof fn lemma_holds_kept(a: Seq<u64>, b: Seq<u64>, lo: int, hi: int, pos: int, piece: Seq<u64>)
    requires
        holds_at(a, pos, piece),
        same_outside(a, b, lo, hi),
        pos + piece.len() <= lo || hi <= pos,
    ensures
        holds_at(b, pos, piece),
{
    assert forall|j: int| 0 <= j < piece.len() implies b[pos + j] == #[trigger] piece[j] by {
        assert(a[pos + j] == piece[j]);
    }
}

/// Two steps in a row change at most what lies in a range around both.
pub proof fn lemma_same_outside_chain(
    a: Seq<u64>,
    b: Seq<u64>,
    c: Seq<u64>,
    lo1: int,
    hi1: int,
    lo2: int,
    hi2: int,
    lo: int,
    hi: int,
)
    requires
        same_outside(a, b, lo1, hi1),
        same_outside(b, c, lo2, hi2),
        lo1 >= hi1 || (lo <= lo1 && hi1 <= hi),
        lo2 >= hi2 || (lo <= lo2 && hi2 <= hi),
    ensures
        same_outside(a, c, lo, hi),
{
    assert forall|p: int| 0 <= p < a.len() && !(lo <= p < hi) implies #[trigger] c[p] == a[p] by {
        assert(b[p] == a[p]);
    }
}

/// Four pieces that stand in a row make up the range they stand in.
pub proof fn lemma_assemble(
    keys: Seq<u64>,
    pos: int,
    a: Seq<u64>,
    b: Seq<u64>,
    c: Seq<u64>,
    d: Seq<u64>,
)
    requires
        holds_at(keys, pos, a),
        holds_at(keys, pos + a.len(), b),
        holds_at(keys, pos + a.len() + b.len(), c),
        holds_at(keys, pos + a.len() + b.len() + c.len(), d),
    ensures
        keys.subrange(pos, pos + a.len() + b.len() + c.len() + d.len()) == a + b + c + d,
{
    let whole = a + b + c + d;
    let range = keys.subrange(pos, pos + a.len() + b.len() + c.len() + d.len());
    assert forall|j: int| 0 <= j < whole.len() implies range[j] == whole[j] by {
        if j < a.len() {
            assert(whole[j] == a[j]);
        } else if j < a.len() + b.len() {
            assert(whole[j] == b[j - a.len()]);
            assert(keys[pos + a.len() + (j - a.len())] == b[j - a.len()]);
        } else if j < a.len() + b.len() + c.len() {
            assert(whole[j] == c[j - a.len() - b.len()]);
            assert(keys[pos + a.len() + b.len() + (j - a.len() - b.len())] == c[j - a.len()
                - b.len()]);
        } else {
            assert(whole[j] == d[j - a.len() - b.len() - c.len()]);
            assert(keys[pos + a.len() + b.len() + c.len() + (j - a.len() - b.len() - c.len())]
                == d[j - a.len() - b.len() - c.len()]);
        }
    }
    assert(range =~= whole);
}

impl IPS2RaSorter {
    /// The next multiple of the block size at or above `index`.
    pub fn align_to_next_block(index: usize) -> (aligned: usize)
        requires
            index + BLOCKSIZE - 1 <= usize::MAX,
        ensures
            aligned == align_up(index as int),
            aligned % BLOCKSIZE == 0,
            index <= aligned < index + BLOCKSIZE,
    {
        (index + (BLOCKSIZE - 1)) / BLOCKSIZE * BLOCKSIZE
    }

    /// The layout that the boundaries and the cursors describe for a range of `n` keys.
    pub open spec fn layout(&self, n: int) -> Layout {
        Layout {
            starts: Seq::new(256, |b: int| align_up(self.boundaries[b] as int)),
            stops: Seq::new(256, |b: int| align_up(self.boundaries[b + 1] as int)),
            writes: Seq::new(256, |b: int| self.pointers[b].0 as int),
            reads: Seq::new(256, |b: int| self.pointers[b].1 + 128),
            fulls: Seq::new(256, |b: int| self.element_counts[b] as int / 128),
            len: n,
            flushed: self.classified_elements as int,
        }
    }

    /// Every boundary is the number of keys in the buckets below it.
    pub open spec fn boundaries_ok(&self) -> bool {
        forall|b: int|
            0 <= b <= 256 ==> #[trigger] self.boundaries[b] == prefix_sum(self.element_counts@, b)
    }

    /// What the permutation needs of the classification of `keys`: the counts
    /// add up to the length of the range, and the full blocks at its front each
    /// hold keys of one bucket, as many for each bucket as the counts say.
    pub open spec fn blocks_ready(&self, keys: Seq<u64>, level: int) -> bool {
        let c = self.classified_elements as int;
        &&& prefix_sum(self.element_counts@, 256) == keys.len()
        &&& 0 <= c <= keys.len()
        &&& c % 128 == 0
        &&& !self.overflow
        &&& blocks_uniform(keys.subrange(0, c), level)
        &&& forall|b: int|
            0 <= b < K ==> #[trigger] count_in_bucket(keys.subrange(0, c), level, b) == (
            self.element_counts[b] / 128) * 128
    }

    /// The fields that only classification writes are the same in `other`.
    pub open spec fn same_counts(&self, other: &Self) -> bool {
        &&& self.block_counts == other.block_counts
        &&& self.element_counts == other.element_counts
        &&& self.classified_elements == other.classified_elements
        &&& self.blocks == other.blocks
        &&& self.primary_bucket == other.primary_bucket
        &&& self.same_resources(other)
    }

    /// The invariant of the block permutation on the state of the sorter.
    pub open spec fn permuting(&self, keys: Seq<u64>, hand: Seq<u64>, src: Seq<u64>, level: int) -> bool {
        &&& self.layout(keys.len() as int).permuting(
            keys,
            hand,
            self.overflow_buffer@,
            self.overflow,
            src,
            level,
        )
        &&& self.boundaries_ok()
        &&& keys.len() + 256 <= isize::MAX
    }

    /// The state after the block permutation: every bucket holds its full
    /// blocks at the front of its slots, the last one in the overflow buffer
    /// where its slot is cut short by the end of the range.
    pub open spec fn blocks_placed(&self, keys: Seq<u64>, level: int) -> bool {
        &&& self.layout(keys.len() as int).permuted(
            keys,
            self.overflow_buffer@,
            self.overflow,
            level,
        )
        &&& self.boundaries_ok()
        &&& prefix_sum(self.element_counts@, 256) == keys.len()
        &&& keys.len() + 256 <= isize::MAX
    }

    /// The full blocks of all buckets as the permutation arranged them.
    pub open spec fn placed_keys(&self, keys: Seq<u64>) -> Seq<u64> {
        concat_parts(self.layout(keys.len() as int).placed_parts(keys)) + ovf_part(
            self.overflow_buffer@,
            self.overflow,
        )
    }

    /// Sets the boundaries to the running sums of the bucket counts and the
    /// cursors of every bucket to the ends of the blocks that classification
    /// left in its slots.
    fn calculate_pointers(&mut self)
        requires
            prefix_sum(old(self).element_counts@, 256) + 256 <= isize::MAX,
            old(self).classified_elements <= prefix_sum(old(self).element_counts@, 256),
            old(self).classified_elements % 128 == 0,
        ensures
            final(self).same_counts(old(self)),
            final(self).overflow == old(self).overflow,
            final(self).overflow_buffer == old(self).overflow_buffer,
            final(self).swap_buffer == old(self).swap_buffer,
            final(self).boundaries_ok(),
            final(self).layout(prefix_sum(old(self).element_counts@, 256)).wf(),
            forall|b: int|
                0 <= b < 256 ==> #[trigger] at_start(
                    final(self).layout(prefix_sum(old(self).element_counts@, 256)),
                    b,
                ),
    {
        let ghost counts = self.element_counts@;
        let ghost n = prefix_sum(counts, 256);
        let mut sum: u64 = 0;
        self.boundaries[0] = 0;
        let mut i: usize = 0;
        while i < K
            invariant
                i <= K,
                self.same_counts(old(self)),
                self.overflow == old(self).overflow,
                self.overflow_buffer == old(self).overflow_buffer,
                self.swap_buffer == old(self).swap_buffer,
                self.pointers == old(self).pointers,
                counts == self.element_counts@,
                n == prefix_sum(counts, 256),
                n + 256 <= isize::MAX,
                sum == prefix_sum(counts, i as int),
                forall|b: int|
                    0 <= b <= i ==> #[trigger] self.boundaries[b] == prefix_sum(counts, b),
            decreases K - i,
        {
            proof {
                lemma_prefix_sum_monotone(counts, i + 1, 256);
            }
            sum = sum + self.element_counts[i];
            self.boundaries[i + 1] = sum;
            i += 1;
        }
        let mut i: usize = 0;
        while i < K
            invariant
                i <= K,
                self.same_counts(old(self)),
                self.overflow == old(self).overflow,
                self.overflow_buffer == old(self).overflow_buffer,
                self.swap_buffer == old(self).swap_buffer,
                counts == self.element_counts@,
                n == prefix_sum(counts, 256),
                n + 256 <= isize::MAX,
                self.classified_elements <= n,
                self.boundaries_ok(),
                forall|b: int|
                    0 <= b < i ==> (#[trigger] self.pointers[b]).0 == align_up(
                        self.boundaries[b] as int,
                    ) && self.pointers[b].1 + 128 == self.layout(n).unread_end(b),
            decreases K - i,
        {
            proof {
                lemma_prefix_sum_monotone(counts, i as int, 256);
                lemma_prefix_sum_monotone(counts, i + 1, 256);
                assert(self.boundaries[i as int] == prefix_sum(counts, i as int));
                assert(self.boundaries[i + 1] == prefix_sum(counts, i + 1));
            }
            let start = Self::align_to_next_block(self.boundaries[i] as usize);
            let stop = Self::align_to_next_block(self.boundaries[i + 1] as usize);
            let read_end = if start >= self.classified_elements {
                start
            } else if stop <= self.classified_elements {
                stop
            } else {
                self.classified_elements
            };
            let ghost before = *self;
            self.pointers[i] = (start as i64, read_end as i64 - BLOCKSIZE as i64);
            proof {
                assert forall|b: int| 0 <= b <= i implies (#[trigger] self.pointers[b]).0
                    == align_up(self.boundaries[b] as int) && self.pointers[b].1 + 128
                    == self.layout(n).unread_end(b) by {
                    if b < i {
                        assert(self.pointers[b] == before.pointers[b]);
                        assert(before.layout(n).unread_end(b) == self.layout(n).unread_end(b));
                    }
                }
            }
            i += 1;
        }
        proof {
            let lay = self.layout(n);
            lemma_prefix_sum_monotone(counts, 0, 256);
            assert(self.boundaries[0] == prefix_sum(counts, 0));
            assert(self.boundaries[256] == prefix_sum(counts, 256));
            lemma_slots_hold_full_blocks(n, 0);
            assert forall|b: int| 0 <= b < 256 implies #[trigger] lay.bucket_ok(b) && at_start(
                lay,
                b,
            ) by {
                assert(self.boundaries[b] == prefix_sum(counts, b));
                assert(self.boundaries[b + 1] == prefix_sum(counts, b + 1));
                lemma_prefix_sum_monotone(counts, b, 256);
                lemma_prefix_sum_monotone(counts, b + 1, 256);
                lemma_prefix_sum_monotone(counts, 0, b);
                lemma_slots_hold_full_blocks(self.boundaries[b] as int, counts[b] as int);
                lemma_slots_hold_full_blocks(self.boundaries[b + 1] as int, 0);
                assert((self.pointers[b]).0 == align_up(self.boundaries[b] as int));
            }
            assert forall|b: int| 0 <= b < 256 implies #[trigger] at_start(lay, b) by {
                assert(lay.bucket_ok(b));
            }
        }
    }

    /// Takes the read cursor of `bucket` one block down.  Returns the write
    /// cursor and the read cursor as it stood before.
    fn fetch_sub_most_significant(&mut self, bucket: usize) -> (cursors: (i64, i64))
        requires
            bucket < K,
            old(self).pointers[bucket as int].1 - BLOCKSIZE >= i64::MIN,
        ensures
            cursors == old(self).pointers[bucket as int],
            final(self).pointers@ == old(self).pointers@.update(
                bucket as int,
                (cursors.0, (cursors.1 - BLOCKSIZE) as i64),
            ),
            final(self).same_counts(old(self)),
            final(self).boundaries == old(self).boundaries,
            final(self).overflow == old(self).overflow,
            final(self).overflow_buffer == old(self).overflow_buffer,
            final(self).swap_buffer == old(self).swap_buffer,
    {
        let cursors = self.pointers[bucket];
        self.pointers[bucket] = (cursors.0, cursors.1 - BLOCKSIZE as i64);
        cursors
    }

    /// Takes the write cursor of `bucket` one block up.  Returns the write
    /// cursor as it stood before and the read cursor.
    fn fetch_add_least_significant(&mut self, bucket: usize) -> (cursors: (i64, i64))
        requires
            bucket < K,
            old(self).pointers[bucket as int].0 + BLOCKSIZE <= i64::MAX,
        ensures
            cursors == old(self).pointers[bucket as int],
            final(self).pointers@ == old(self).pointers@.update(
                bucket as int,
                ((cursors.0 + BLOCKSIZE) as i64, cursors.1),
            ),
            final(self).same_counts(old(self)),
            final(self).boundaries == old(self).boundaries,
            final(self).overflow == old(self).overflow,
            final(self).overflow_buffer == old(self).overflow_buffer,
            final(self).swap_buffer == old(self).swap_buffer,
    {
        let cursors = self.pointers[bucket];
        self.pointers[bucket] = (cursors.0 + BLOCKSIZE as i64, cursors.1);
        cursors
    }
}

/// Moving the read cursor of bucket `b` down shows in the layout as such.
proof fn lemma_layout_read_retreated(before: &IPS2RaSorter, after: &IPS2RaSorter, n: int, b: int)
    requires
        0 <= b < 256,
        after.pointers@ == before.pointers@.update(
            b,
            (before.pointers[b].0, (before.pointers[b].1 - 128) as i64),
        ),
        before.pointers[b].1 - 128 >= i64::MIN,
        after.same_counts(before),
        after.boundaries == before.boundaries,
    ensures
        read_retreated(before.layout(n), after.layout(n), b),
{
    let x = before.layout(n);
    let y = after.layout(n);
    assert(y.reads =~= x.reads.update(b, x.reads[b] - 128));
    assert(y.writes =~= x.writes);
    assert(y.starts =~= x.starts);
    assert(y.stops =~= x.stops);
    assert(y.fulls =~= x.fulls);
}

/// Moving the write cursor of bucket `d` up shows in the layout as such.
proof fn lemma_layout_write_advanced(before: &IPS2RaSorter, after: &IPS2RaSorter, n: int, d: int)
    requires
        0 <= d < 256,
        after.pointers@ == before.pointers@.update(
            d,
            ((before.pointers[d].0 + 128) as i64, before.pointers[d].1),
        ),
        before.pointers[d].0 + 128 <= i64::MAX,
        after.same_counts(before),
        after.boundaries == before.boundaries,
    ensures
        write_advanced(before.layout(n), after.layout(n), d),
        seq_sum(after.layout(n).writes) == seq_sum(before.layout(n).writes) + 128,
{
    let x = before.layout(n);
    let y = after.layout(n);
    assert(y.writes =~= x.writes.update(d, x.writes[d] + 128));
    assert(y.reads =~= x.reads);
    assert(y.starts =~= x.starts);
    assert(y.stops =~= x.stops);
    assert(y.fulls =~= x.fulls);
    lemma_seq_sum_update(x.writes, d, x.writes[d] + 128);
}

/// A change to the buffers alone leaves the layout as it is.
proof fn lemma_layout_kept(before: &IPS2RaSorter, after: &IPS2RaSorter, n: int)
    requires
        after.pointers == before.pointers,
        after.same_counts(before),
        after.boundaries == before.boundaries,
    ensures
        after.layout(n) == before.layout(n),
{
    let x = before.layout(n);
    let y = after.layout(n);
    assert(y.writes =~= x.writes);
    assert(y.reads =~= x.reads);
    assert(y.starts =~= x.starts);
    assert(y.stops =~= x.stops);
    assert(y.fulls =~= x.fulls);
}

impl IPS2RaSorter {
    /// Takes the last waiting block of `bucket` into the first swap buffer.
    /// Returns the bucket that the block belongs to, or -1 where no block of
    /// `bucket` waits any more.
    fn classify_and_read_block<S: KeyStore + ?Sized>(
        &mut self,
        bucket: usize,
        keys: &mut S,
        level: usize,
        Ghost(src): Ghost<Seq<u64>>,
    ) -> (dest: i64)
        requires
            old(keys).usable(),
            bucket < K,
            old(self).permuting(old(keys).keys(), Seq::<u64>::empty(), src, level as int),
            old(self).layout(old(keys).keys().len() as int).starts[bucket as int] <= old(self).layout(old(keys).keys().len() as int).reads[bucket as int],
        ensures
            final(keys).usable(),
            final(keys).surroundings() == old(keys).surroundings(),
            final(keys).keys() == old(keys).keys(),
            final(self).same_counts(old(self)),
            final(self).boundaries == old(self).boundaries,
            read_retreated(
                old(self).layout(old(keys).keys().len() as int),
                final(self).layout(old(keys).keys().len() as int),
                bucket as int,
            ),
            dest == -1 ==> final(self).permuting(
                final(keys).keys(),
                Seq::<u64>::empty(),
                src,
                level as int,
            ) && drained(final(self).layout(old(keys).keys().len() as int), bucket as int),
            dest != -1 ==> 0 <= dest < 256 && final(self).permuting(
                final(keys).keys(),
                final(self).swap_buffer[0]@,
                src,
                level as int,
            ) && dest == bucket_of(final(self).swap_buffer[0][0], level as int) && final(self).layout(old(keys).keys().len() as int).starts[bucket as int] <= final(self).layout(
                old(keys).keys().len() as int,
            ).reads[bucket as int],
    {
        let ghost n = keys.keys().len() as int;
        let ghost before = *self;
        let ghost lay = self.layout(n);
        proof {
            assert(lay.bucket_ok(bucket as int));
            lemma_region_bounds(lay, bucket as int);
        }
        let (write_ptr, read_ptr) = self.fetch_sub_most_significant(bucket);
        proof {
            lemma_layout_read_retreated(&before, self, n, bucket as int);
        }
        if read_ptr < write_ptr {
            proof {
                lemma_step_read_none(
                    lay,
                    self.layout(n),
                    keys.keys(),
                    self.overflow_buffer@,
                    self.overflow,
                    src,
                    level as int,
                    bucket as int,
                );
            }
            return -1;
        }
        let ghost moved = *self;
        let block = read_block(keys, read_ptr as usize);
        self.swap_buffer[0] = block;
        proof {
            lemma_layout_kept(&moved, self, n);
            lemma_step_read_block(
                lay,
                self.layout(n),
                keys.keys(),
                block@,
                self.overflow_buffer@,
                self.overflow,
                src,
                level as int,
                bucket as int,
            );
            assert(self.layout(n).bucket_ok(bucket as int));
        }
        find_bucket_ips2ra(self.swap_buffer[0][0], level) as i64
    }

    /// Puts the block in swap buffer `current_swap` down in bucket
    /// `dest_bucket`.  Where a waiting block of another bucket stands in its
    /// way, that block is taken into the other swap buffer and its bucket is
    /// returned; where the slot is free, -1 is returned.
    #[verifier::rlimit(60)]
    fn swap_block<S: KeyStore + ?Sized>(
        &mut self,
        max_off: usize,
        dest_bucket: i64,
        current_swap: bool,
        keys: &mut S,
        level: usize,
        Ghost(src): Ghost<Seq<u64>>,
    ) -> (next: i64)
        requires
            old(keys).usable(),
            0 <= dest_bucket < 256,
            max_off == align_down(old(keys).keys().len() as int),
            old(self).permuting(
                old(keys).keys(),
                old(self).swap_buffer[if current_swap {
                    1int
                } else {
                    0int
                }]@,
                src,
                level as int,
            ),
            dest_bucket == bucket_of(
                old(self).swap_buffer[if current_swap {
                    1int
                } else {
                    0int
                }][0],
                level as int,
            ),
        ensures
            final(keys).usable(),
            final(keys).surroundings() == old(keys).surroundings(),
            final(keys).keys().len() == old(keys).keys().len(),
            final(self).same_counts(old(self)),
            final(self).boundaries == old(self).boundaries,
            final(self).layout(old(keys).keys().len() as int).reads == old(self).layout(
                old(keys).keys().len() as int,
            ).reads,
            forall|b: int|
                0 <= b < 256 ==> #[trigger] final(self).layout(
                    old(keys).keys().len() as int,
                ).writes[b] >= old(self).layout(old(keys).keys().len() as int).writes[b],
            seq_sum(final(self).layout(old(keys).keys().len() as int).writes) > seq_sum(
                old(self).layout(old(keys).keys().len() as int).writes,
            ),
            next == -1 ==> final(self).permuting(
                final(keys).keys(),
                Seq::<u64>::empty(),
                src,
                level as int,
            ),
            next != -1 ==> 0 <= next < 256 && final(self).permuting(
                final(keys).keys(),
                final(self).swap_buffer[if current_swap {
                    0int
                } else {
                    1int
                }]@,
                src,
                level as int,
            ) && next == bucket_of(
                final(self).swap_buffer[if current_swap {
                    0int
                } else {
                    1int
                }][0],
                level as int,
            ),
    {
        let dest = dest_bucket as usize;
        let cur: usize = if current_swap {
            1
        } else {
            0
        };
        let other: usize = 1 - cur;
        let ghost n = keys.keys().len() as int;
        let ghost hand = self.swap_buffer[cur as int]@;
        let ghost lay0 = self.layout(n);
        let mut next: i64 = -1;
        let mut searching = true;
        while searching
            invariant
                keys.usable(),
                keys.surroundings() == old(keys).surroundings(),
                keys.keys().len() == n,
                n == old(keys).keys().len(),
                dest < 256,
                dest == dest_bucket,
                cur < 2,
                other == 1 - cur,
                cur == (if current_swap {
                    1int
                } else {
                    0int
                }),
                level < 8,
                max_off == align_down(n),
                lay0 == old(self).layout(n),
                self.same_counts(old(self)),
                self.boundaries == old(self).boundaries,
                self.layout(n).reads == lay0.reads,
                forall|b: int| 0 <= b < 256 ==> #[trigger] self.layout(n).writes[b] >= lay0.writes[b],
                seq_sum(self.layout(n).writes) >= seq_sum(lay0.writes),
                searching ==> self.swap_buffer[cur as int]@ == hand && dest == bucket_of(
                    hand[0],
                    level as int,
                ) && self.permuting(keys.keys(), hand, src, level as int),
                !searching ==> seq_sum(self.layout(n).writes) > seq_sum(lay0.writes),
                !searching && next == -1 ==> self.permuting(
                    keys.keys(),
                    Seq::<u64>::empty(),
                    src,
                    level as int,
                ),
                !searching && next != -1 ==> 0 <= next < 256 && self.permuting(
                    keys.keys(),
                    self.swap_buffer[other as int]@,
                    src,
                    level as int,
                ) && next == bucket_of(self.swap_buffer[other as int][0], level as int),
            decreases
                    (if searching {
                        1int
                    } else {
                        0int
                    }),
                    self.layout(n).stops[dest as int] - self.layout(n).writes[dest as int],
        {
            let ghost before = *self;
            let ghost lay = self.layout(n);
            proof {
                lemma_room_for_block(
                    lay,
                    keys.keys(),
                    hand,
                    self.overflow_buffer@,
                    self.overflow,
                    src,
                    level as int,
                    dest as int,
                );
                assert(lay.bucket_ok(dest as int));
                lemma_region_bounds(lay, dest as int);
            }
            let (write_ptr, read_ptr) = self.fetch_add_least_significant(dest);
            proof {
                lemma_layout_write_advanced(&before, self, n, dest as int);
                assert forall|b: int| 0 <= b < 256 implies #[trigger] self.layout(n).writes[b]
                    >= lay0.writes[b] by {
                    assert(lay.writes[b] >= lay0.writes[b]);
                }
            }
            if write_ptr > read_ptr {
                self.put_down(keys, cur, dest, write_ptr, max_off, level, Ghost(src), Ghost(lay));
                next = -1;
                searching = false;
            } else {
                proof {
                    assert(lay.writes[dest as int] < lay.reads[dest as int]);
                    assert(lay.reads[dest as int] <= lay.flushed);
                }
                let first = keys.load(write_ptr as usize);
                let new_dest = find_bucket_ips2ra(first, level);
                if new_dest != dest {
                    self.exchange(keys, cur, dest, write_ptr, level, Ghost(src), Ghost(lay));
                    next = new_dest as i64;
                    searching = false;
                } else {
                    proof {
                        lemma_step_skip(
                            lay,
                            self.layout(n),
                            keys.keys(),
                            hand,
                            self.overflow_buffer@,
                            self.overflow,
                            src,
                            level as int,
                            dest as int,
                        );
                    }
                }
            }
        }
        next
    }

    /// Puts the block in swap buffer `cur` into the free slot at `write_ptr` of
    /// bucket `dest`, or into the overflow buffer where that slot is cut short
    /// by the end of the range.
    fn put_down<S: KeyStore + ?Sized>(
        &mut self,
        keys: &mut S,
        cur: usize,
        dest: usize,
        write_ptr: i64,
        max_off: usize,
        level: usize,
        Ghost(src): Ghost<Seq<u64>>,
        Ghost(lay): Ghost<Layout>,
    )
        requires
            old(keys).usable(),
            cur < 2,
            dest < 256,
            level < 8,
            max_off == align_down(old(keys).keys().len() as int),
            old(keys).keys().len() + 256 <= isize::MAX,
            old(self).boundaries_ok(),
            lay.permuting(
                old(keys).keys(),
                old(self).swap_buffer[cur as int]@,
                old(self).overflow_buffer@,
                old(self).overflow,
                src,
                level as int,
            ),
            dest == bucket_of(old(self).swap_buffer[cur as int][0], level as int),
            write_advanced(lay, old(self).layout(old(keys).keys().len() as int), dest as int),
            write_ptr == lay.writes[dest as int],
            lay.writes[dest as int] >= lay.reads[dest as int],
            lay.writes[dest as int] + 128 <= lay.stops[dest as int],
            lay.writes[dest as int] <= lay.cap(),
            lay.writes[dest as int] >= lay.cap() ==> !old(self).overflow && lay.len % 128 != 0,
        ensures
            final(keys).usable(),
            final(keys).surroundings() == old(keys).surroundings(),
            final(keys).keys().len() == old(keys).keys().len(),
            final(self).same_counts(old(self)),
            final(self).boundaries == old(self).boundaries,
            final(self).pointers == old(self).pointers,
            final(self).layout(old(keys).keys().len() as int) == old(self).layout(
                old(keys).keys().len() as int,
            ),
            final(self).permuting(final(keys).keys(), Seq::<u64>::empty(), src, level as int),
    {
        let ghost n = keys.keys().len() as int;
        let ghost hand = self.swap_buffer[cur as int]@;
        let ghost keys_before = keys.keys();
        let ghost moved = *self;
        proof {
            assert(lay.bucket_ok(dest as int));
            lemma_region_bounds(lay, dest as int);
        }
        if write_ptr >= max_off as i64 {
            self.overflow_buffer = self.swap_buffer[cur];
            self.overflow = true;
            proof {
                lemma_layout_kept(&moved, self, n);
                lemma_step_overflow(
                    lay,
                    self.layout(n),
                    keys_before,
                    hand,
                    moved.overflow_buffer@,
                    src,
                    level as int,
                    dest as int,
                );
            }
        } else {
            write_keys(keys, write_ptr as usize, &self.swap_buffer[cur], 0, BLOCKSIZE);
            proof {
                lemma_step_place(
                    lay,
                    self.layout(n),
                    keys_before,
                    keys.keys(),
                    hand,
                    self.overflow_buffer@,
                    self.overflow,
                    src,
                    level as int,
                    dest as int,
                );
            }
        }
    }

    /// Takes the waiting block at `write_ptr` of bucket `dest` into the other
    /// swap buffer and puts the block in swap buffer `cur` in its place.
    fn exchange<S: KeyStore + ?Sized>(
        &mut self,
        keys: &mut S,
        cur: usize,
        dest: usize,
        write_ptr: i64,
        level: usize,
        Ghost(src): Ghost<Seq<u64>>,
        Ghost(lay): Ghost<Layout>,
    )
        requires
            old(keys).usable(),
            cur < 2,
            dest < 256,
            level < 8,
            old(keys).keys().len() + 256 <= isize::MAX,
            old(self).boundaries_ok(),
            lay.permuting(
                old(keys).keys(),
                old(self).swap_buffer[cur as int]@,
                old(self).overflow_buffer@,
                old(self).overflow,
                src,
                level as int,
            ),
            dest == bucket_of(old(self).swap_buffer[cur as int][0], level as int),
            write_advanced(lay, old(self).layout(old(keys).keys().len() as int), dest as int),
            write_ptr == lay.writes[dest as int],
            lay.writes[dest as int] < lay.reads[dest as int],
        ensures
            final(keys).usable(),
            final(keys).surroundings() == old(keys).surroundings(),
            final(keys).keys().len() == old(keys).keys().len(),
            final(self).same_counts(old(self)),
            final(self).boundaries == old(self).boundaries,
            final(self).pointers == old(self).pointers,
            final(self).layout(old(keys).keys().len() as int) == old(self).layout(
                old(keys).keys().len() as int,
            ),
            final(self).permuting(
                final(keys).keys(),
                final(self).swap_buffer[1 - cur]@,
                src,
                level as int,
            ),
            final(self).swap_buffer[1 - cur][0] == old(keys).keys()[write_ptr as int],
    {
        let ghost n = keys.keys().len() as int;
        let ghost hand = self.swap_buffer[cur as int]@;
        let ghost keys_before = keys.keys();
        let ghost moved = *self;
        proof {
            assert(lay.bucket_ok(dest as int));
            lemma_region_bounds(lay, dest as int);
            assert(lay.reads[dest as int] <= lay.flushed);
        }
        let block = read_block(keys, write_ptr as usize);
        self.swap_buffer[1 - cur] = block;
        write_keys(keys, write_ptr as usize, &self.swap_buffer[cur], 0, BLOCKSIZE);
        proof {
            lemma_layout_kept(&moved, self, n);
            assert(self.swap_buffer[cur as int]@ == hand);
            lemma_step_swap(
                lay,
                self.layout(n),
                keys_before,
                keys.keys(),
                hand,
                block@,
                self.overflow_buffer@,
                self.overflow,
                src,
                level as int,
                dest as int,
            );
        }
    }

    /// Moves the full blocks of an in-memory task into the slots of their buckets.
    pub fn permutate_blocks(&mut self, task: &mut Task)
        requires
            old(self).blocks_ready(old(task).arr@, old(task).level as int),
            old(task).level < 8,
            old(task).arr@.len() + 256 <= isize::MAX,
        ensures
            final(self).blocks_placed(final(task).arr@, old(task).level as int),
            is_permutation(
                final(self).placed_keys(final(task).arr@),
                old(task).arr@.subrange(0, old(self).classified_elements as int),
            ),
            final(self).same_counts(old(self)),
            final(task).level == old(task).level,
            final(task).level_end == old(task).level_end,
    {
        self.permutate_keys(task.arr, task.level);
    }

    /// Moves the full blocks at the front of `keys` into the slots of their
    /// buckets.  Afterwards bucket `b` holds its full blocks from the first
    /// slot at or behind `boundaries[b]` on, and its write cursor stands behind
    /// them.  A block whose slot reaches past the end of the range is in the
    /// overflow buffer, and `overflow` says so.  No key is lost or made up.
    pub fn permutate_keys<S: KeyStore + ?Sized>(&mut self, keys: &mut S, level: usize)
        requires
            old(keys).usable(),
            old(self).blocks_ready(old(keys).keys(), level as int),
            level < 8,
            old(keys).keys().len() + 256 <= isize::MAX,
        ensures
            final(keys).usable(),
            final(keys).surroundings() == old(keys).surroundings(),
            final(self).blocks_placed(final(keys).keys(), level as int),
            is_permutation(
                final(self).placed_keys(final(keys).keys()),
                old(keys).keys().subrange(0, old(self).classified_elements as int),
            ),
            final(self).same_counts(old(self)),
    {
        let n = keys.size();
        let ghost src = keys.keys().subrange(0, self.classified_elements as int);
        self.calculate_pointers();
        proof {
            let lay = self.layout(n as int);
            assert forall|d: int| 0 <= d < 256 implies #[trigger] count_in_bucket(
                src,
                level as int,
                d,
            ) == lay.fulls[d] * 128 by {
                assert(count_in_bucket(src, level as int, d) == (old(self).element_counts[d] / 128)
                    * 128);
            }
            lemma_permute_start(lay, keys.keys(), self.overflow_buffer@, level as int);
            lemma_slots_hold_full_blocks(n as int, 0);
            assert forall|b: int| 0 <= b < 256 implies lay.starts[b] <= #[trigger] lay.reads[b] by {
                assert(at_start(lay, b));
                assert(lay.bucket_ok(b));
            }
        }
        let max_off = Self::align_to_next_block(n + 1) - BLOCKSIZE;
        let mut read_bucket: usize = 0;
        let mut i: usize = 0;
        while i < K
            invariant
                i <= K,
                read_bucket == (if i < K {
                    i
                } else {
                    0
                }),
                level < 8,
                n == keys.keys().len(),
                n == old(keys).keys().len(),
                max_off == align_down(n as int),
                keys.usable(),
                keys.surroundings() == old(keys).surroundings(),
                self.same_counts(old(self)),
                self.permuting(keys.keys(), Seq::<u64>::empty(), src, level as int),
                forall|b: int| 0 <= b < i ==> #[trigger] drained(self.layout(n as int), b),
                forall|b: int|
                    i <= b < 256 ==> self.layout(n as int).starts[b] <= #[trigger] self.layout(
                        n as int,
                    ).reads[b],
            decreases K - i,
        {
            let ghost lay_entry = self.layout(n as int);
            let mut dest = self.classify_and_read_block(read_bucket, keys, level, Ghost(src));
            proof {
                lemma_drained_after_read(lay_entry, self.layout(n as int), i as int);
            }
            while dest != -1
                invariant
                    i < K,
                    read_bucket == i,
                    level < 8,
                    n == keys.keys().len(),
                    n == old(keys).keys().len(),
                    max_off == align_down(n as int),
                    keys.usable(),
                    keys.surroundings() == old(keys).surroundings(),
                    self.same_counts(old(self)),
                    forall|b: int| 0 <= b < i ==> #[trigger] drained(self.layout(n as int), b),
                    forall|b: int|
                        i < b < 256 ==> self.layout(n as int).starts[b] <= #[trigger] self.layout(
                            n as int,
                        ).reads[b],
                    dest == -1 ==> self.permuting(keys.keys(), Seq::<u64>::empty(), src, level as int) && drained(
                        self.layout(n as int),
                        i as int,
                    ),
                    dest != -1 ==> 0 <= dest < 256 && self.permuting(
                        keys.keys(),
                        self.swap_buffer[0]@,
                        src,
                        level as int,
                    ) && dest == bucket_of(self.swap_buffer[0][0], level as int) && self.layout(
                        n as int,
                    ).starts[i as int] <= self.layout(n as int).reads[i as int],
                decreases self.layout(n as int).reads[i as int] - self.layout(n as int).starts[i as int]
                        + 256,
            {
                let ghost lay_read = self.layout(n as int);
                let mut current_swap = false;
                dest = self.swap_block(max_off, dest, current_swap, keys, level, Ghost(src));
                proof {
                    lemma_drained_kept(lay_read, self.layout(n as int), i as int);
                }
                while dest != -1
                    invariant
                        i < K,
                        level < 8,
                        n == keys.keys().len(),
                        n == old(keys).keys().len(),
                        max_off == align_down(n as int),
                        keys.usable(),
                        keys.surroundings() == old(keys).surroundings(),
                        self.same_counts(old(self)),
                        self.layout(n as int).reads == lay_read.reads,
                        self.layout(n as int).starts == lay_read.starts,
                        forall|b: int| 0 <= b < i ==> #[trigger] drained(self.layout(n as int), b),
                        dest == -1 ==> self.permuting(keys.keys(), Seq::<u64>::empty(), src, level as int),
                        dest != -1 ==> 0 <= dest < 256 && self.permuting(
                            keys.keys(),
                            self.swap_buffer[if current_swap {
                                0int
                            } else {
                                1int
                            }]@,
                            src,
                            level as int,
                        ) && dest == bucket_of(
                            self.swap_buffer[if current_swap {
                                0int
                            } else {
                                1int
                            }][0],
                            level as int,
                        ),
                    decreases
                            seq_sum(self.layout(n as int).stops) - seq_sum(
                                self.layout(n as int).writes,
                            ),
                {
                    let ghost lay_before = self.layout(n as int);
                    current_swap = !current_swap;
                    dest = self.swap_block(max_off, dest, current_swap, keys, level, Ghost(src));
                    proof {
                        lemma_drained_kept(lay_before, self.layout(n as int), i as int);
                        lemma_writes_bounded(self.layout(n as int));
                    }
                }
                proof {
                    assert forall|b: int| i < b < 256 implies self.layout(n as int).starts[b]
                        <= #[trigger] self.layout(n as int).reads[b] by {
                        assert(lay_read.starts[b] <= lay_read.reads[b]);
                    }
                    assert(lay_read.starts[i as int] <= lay_read.reads[i as int]);
                }
                let ghost lay_chain = self.layout(n as int);
                dest = self.classify_and_read_block(read_bucket, keys, level, Ghost(src));
                proof {
                    lemma_drained_after_read(lay_chain, self.layout(n as int), i as int);
                }
            }
            read_bucket = (read_bucket + 1) % K;
            i += 1;
        }
        proof {
            lemma_permute_finish(
                self.layout(n as int),
                keys.keys(),
                self.overflow_buffer@,
                self.overflow,
                src,
                level as int,
            );
        }
    }
}

/// A bucket without waiting blocks stays so when write cursors move up.
proof fn lemma_drained_kept(before: Layout, after: Layout, upto: int)
    requires
        0 <= upto <= 256,
        before.reads.len() == 256,
        before.writes.len() == 256,
        after.writes.len() == 256,
        after.reads == before.reads,
        forall|b: int| 0 <= b < 256 ==> #[trigger] after.writes[b] >= before.writes[b],
        forall|b: int| 0 <= b < upto ==> #[trigger] drained(before, b),
    ensures
        forall|b: int| 0 <= b < upto ==> #[trigger] drained(after, b),
{
    assert forall|b: int| 0 <= b < upto implies #[trigger] drained(after, b) by {
        assert(drained(before, b));
        assert(after.writes[b] >= before.writes[b]);
    }
}

/// Reading from bucket `i` leaves the buckets before it without waiting blocks
/// and the read cursors of the buckets behind it where they were.
proof fn lemma_drained_after_read(before: Layout, after: Layout, i: int)
    requires
        0 <= i < 256,
        before.reads.len() == 256,
        read_retreated(before, after, i),
        forall|b: int| 0 <= b < i ==> #[trigger] drained(before, b),
        forall|b: int| i < b < 256 ==> before.starts[b] <= #[trigger] before.reads[b],
    ensures
        forall|b: int| 0 <= b < i ==> #[trigger] drained(after, b),
        forall|b: int| i < b < 256 ==> after.starts[b] <= #[trigger] after.reads[b],
        after.reads[i] == before.reads[i] - 128,
        after.starts == before.starts,
{
    assert forall|b: int| 0 <= b < i implies #[trigger] drained(after, b) by {
        assert(drained(before, b));
    }
    assert forall|b: int| i < b < 256 implies after.starts[b] <= #[trigger] after.reads[b] by {
        assert(before.starts[b] <= before.reads[b]);
    }
}

/// The write cursors together never pass the ends of the slots.
proof fn lemma_writes_bounded(lay: Layout)
    requires
        lay.wf(),
    ensures
        seq_sum(lay.writes) <= seq_sum(lay.stops),
{
    assert forall|b: int| 0 <= b < 256 implies lay.writes[b] <= lay.stops[b] by {
        assert(lay.bucket_ok(b));
    }
    lemma_seq_sum_le(lay.writes, lay.stops);
}

/// The logical block that holds key `index` of a task which starts at logical
/// block `start_lba`, and the place of the block of that key in a page buffer:
/// the place of the key in its block, moved on by `task_offset`.
pub fn calculate_lba_offset(index: usize, start_lba: usize, task_offset: usize) -> (place: (
    usize,
    usize,
))
    requires
        index / 64 + start_lba <= usize::MAX,
        index % 128 + task_offset <= usize::MAX,
    ensures
        place.0 == index / 64 + start_lba,
        place.1 == index % 128 + task_offset,
{
    let lba = index / crate::config::ELEMENTS_PER_LBA + start_lba;
    let offset = index % BLOCKSIZE + task_offset;
    (lba, offset)
}

} // verus!
