//! Classification: every key of a task is counted in its bucket and appended
//! to the staging block of that bucket; a staging block that fills up is
//! written back to the front of the task's own range.

use crate::config::{BLOCKSIZE, K};
use crate::model::{
    all_in_bucket, blocks_uniform, bucket_of, count_in_bucket, lemma_concat_multiset,
    lemma_count_all_in_bucket, lemma_count_bounded, lemma_count_concat, lemma_count_push,
};
use crate::parts::{concat_parts, lemma_parts_len, lemma_parts_len_lower, lemma_parts_update};
use crate::sort::find_bucket_ips2ra;
use crate::sorter::{IPS2RaSorter, Task};
use crate::store::KeyStore;
use vstd::multiset::Multiset;
use vstd::prelude::*;

verus! {

/// Staging one more key adds it to the keys accounted for.
proof fn lemma_stage_key(
    front: Multiset<u64>,
    staged: Multiset<u64>,
    staged_after: Multiset<u64>,
    piece: Seq<u64>,
    key: u64,
    seen: Seq<u64>,
)
    requires
        front.add(staged) == seen.to_multiset(),
        staged_after.add(piece.to_multiset()) == staged.add(piece.push(key).to_multiset()),
    ensures
        front.add(staged_after) == seen.push(key).to_multiset(),
{
    broadcast use vstd::multiset::group_multiset_axioms;

    vstd::seq_lib::to_multiset_build(piece, key);
    vstd::seq_lib::to_multiset_build(seen, key);
    assert forall|v: u64| front.add(staged_after).count(v) == seen.push(key).to_multiset().count(
        v,
    ) by {
        assert(front.add(staged).count(v) == seen.to_multiset().count(v));
        assert(front.add(staged).count(v) == front.count(v) + staged.count(v));
        assert(front.add(staged_after).count(v) == front.count(v) + staged_after.count(v));
        assert(staged_after.add(piece.to_multiset()).count(v) == staged.add(
            piece.push(key).to_multiset(),
        ).count(v));
        assert(staged_after.add(piece.to_multiset()).count(v) == staged_after.count(v)
            + piece.to_multiset().count(v));
        assert(staged.add(piece.push(key).to_multiset()).count(v) == staged.count(v) + piece.push(
            key,
        ).to_multiset().count(v));
        assert(piece.push(key).to_multiset().count(v) == piece.to_multiset().insert(key).count(v));
        assert(seen.push(key).to_multiset().count(v) == seen.to_multiset().insert(key).count(v));
    }
    assert(front.add(staged_after) =~= seen.push(key).to_multiset());
}

/// Writing a full staging block back moves its keys from the staged keys to
/// the front of the range.
proof fn lemma_flush_block(
    front: Seq<u64>,
    block: Seq<u64>,
    staged: Multiset<u64>,
    staged_after: Multiset<u64>,
    seen: Multiset<u64>,
)
    requires
        front.to_multiset().add(staged) == seen,
        staged_after.add(block.to_multiset()) == staged.add(Seq::<u64>::empty().to_multiset()),
    ensures
        (front + block).to_multiset().add(staged_after) == seen,
{
    broadcast use vstd::multiset::group_multiset_axioms;

    lemma_concat_multiset(front, block);
    let none = Seq::<u64>::empty().to_multiset();
    assert forall|v: u64| (front + block).to_multiset().add(staged_after).count(v) == seen.count(
        v,
    ) by {
        vstd::seq_lib::to_multiset_contains(Seq::<u64>::empty(), v);
        assert(none.count(v) == 0);
        assert(front.to_multiset().add(staged).count(v) == front.to_multiset().count(v)
            + staged.count(v));
        assert(staged_after.add(block.to_multiset()).count(v) == staged.add(none).count(v));
        assert(staged_after.add(block.to_multiset()).count(v) == staged_after.count(v)
            + block.to_multiset().count(v));
        assert(staged.add(none).count(v) == staged.count(v) + none.count(v));
        assert((front + block).to_multiset().count(v) == front.to_multiset().add(
            block.to_multiset(),
        ).count(v));
        assert(front.to_multiset().add(block.to_multiset()).count(v) == front.to_multiset().count(v)
            + block.to_multiset().count(v));
        assert((front + block).to_multiset().add(staged_after).count(v) == (front
            + block).to_multiset().count(v) + staged_after.count(v));
    }
    assert((front + block).to_multiset().add(staged_after) =~= seen);
}

/// Appending a block of keys of one bucket to uniform blocks keeps them uniform.
proof fn lemma_uniform_append(front: Seq<u64>, block: Seq<u64>, level: int, b: int)
    requires
        blocks_uniform(front, level),
        front.len() % 128 == 0,
        block.len() == 128,
        all_in_bucket(block, level, b),
    ensures
        blocks_uniform(front + block, level),
{
    let whole = front + block;
    assert forall|i: int| 0 <= i < whole.len() implies bucket_of(#[trigger] whole[i], level)
        == bucket_of(whole[(i / 128) * 128], level) by {
        if i < front.len() {
            assert(whole[i] == front[i]);
            assert(whole[(i / 128) * 128] == front[(i / 128) * 128]);
        } else {
            assert((i / 128) * 128 == front.len());
            assert(whole[i] == block[i - front.len()]);
            assert(whole[(i / 128) * 128] == block[0]);
        }
    }
}

impl IPS2RaSorter {
    /// The state of classification after `i` keys of `input` have been read and
    /// `w` keys have been written back; the keys behind those written back
    /// stand as they stood.  Only the staging block of bucket `pending` may be
    /// full.
    pub open spec fn classifying(
        &self,
        keys: Seq<u64>,
        input: Seq<u64>,
        level: int,
        i: int,
        w: int,
        pending: int,
    ) -> bool {
        &&& 0 <= w <= i <= input.len()
        &&& keys.len() == input.len()
        &&& w % 128 == 0
        &&& !self.overflow
        &&& forall|p: int| w <= p < input.len() ==> keys[p] == input[p]
        &&& forall|b: int|
            0 <= b < K ==> (#[trigger] self.block_counts[b] < 128 || (b == pending
                && self.block_counts[b] == 128))
        &&& forall|b: int| 0 <= b < K ==> #[trigger] self.element_counts[b] % 128 == 0
        &&& forall|b: int| 0 <= b < K ==> all_in_bucket(#[trigger] self.staged(b), level, b)
        &&& forall|b: int|
            0 <= b < K ==> #[trigger] count_in_bucket(keys.subrange(0, w), level, b)
                == self.element_counts[b]
        &&& forall|b: int|
            0 <= b < K ==> #[trigger] count_in_bucket(input.subrange(0, i), level, b)
                == self.element_counts[b] + self.block_counts[b]
        &&& blocks_uniform(keys.subrange(0, w), level)
        &&& keys.subrange(0, w).to_multiset().add(concat_parts(self.staged_parts()).to_multiset())
            == input.subrange(0, i).to_multiset()
    }

    /// Classifies the keys of an in-memory task at the level of the task.
    pub fn classify(&mut self, task: &mut Task)
        requires
            old(self).is_cleared(),
            old(task).level < 8,
        ensures
            final(self).classified(final(task).arr@, old(task).arr@, old(task).level as int),
            crate::model::prefix_sum(final(self).element_counts@, 256) == old(task).arr@.len(),
            final(self).same_resources(old(self)),
            final(task).level == old(task).level,
            final(task).level_end == old(task).level_end,
    {
        self.classify_keys(task.arr, task.level);
    }

    /// Classifies the keys of `keys` at `level`.  Afterwards the full blocks
    /// stand at the front of the range, `classified_elements` keys in all, each
    /// block with keys of one bucket; the other keys are staged; and
    /// `element_counts` holds for every bucket how many keys of the input belong
    /// to it.
    pub fn classify_keys<S: KeyStore + ?Sized>(&mut self, keys: &mut S, level: usize)
        requires
            old(self).is_cleared(),
            old(keys).usable(),
            level < 8,
        ensures
            final(keys).usable(),
            final(keys).surroundings() == old(keys).surroundings(),
            final(self).classified(final(keys).keys(), old(keys).keys(), level as int),
            crate::model::prefix_sum(final(self).element_counts@, 256) == old(keys).keys().len(),
            final(self).same_resources(old(self)),
    {
        let n = keys.size();
        let ghost input = keys.keys();
        keys.read_ahead(true);
        let mut write_idx: usize = 0;
        let mut i: usize = 0;
        proof {
            lemma_classify_start(self, input, level as int);
        }
        while i < n
            invariant
                i <= n,
                level < 8,
                keys.usable(),
                keys.surroundings() == old(keys).surroundings(),
                input.len() == n,
                input == old(keys).keys(),
                self.classifying(keys.keys(), input, level as int, i as int, write_idx as int, -1),
                self.same_resources(old(self)),
            decreases n - i,
        {
            let element = keys.load(i);
            let bucket = find_bucket_ips2ra(element, level);
            let fill = self.block_counts[bucket];
            let ghost before = *self;
            self.blocks[bucket][fill] = element;
            self.block_counts[bucket] = fill + 1;
            proof {
                lemma_classify_stage(
                    &before,
                    self,
                    keys.keys(),
                    input,
                    level as int,
                    i as int,
                    write_idx as int,
                    bucket as int,
                    element,
                );
            }
            if fill + 1 == BLOCKSIZE {
                let ghost snapshot = keys.keys();
                let ghost staged_full = *self;
                proof {
                    lemma_classify_room(
                        self,
                        snapshot,
                        input,
                        level as int,
                        i + 1,
                        write_idx as int,
                        bucket as int,
                    );
                }
                let mut j: usize = 0;
                while j < BLOCKSIZE
                    invariant
                        j <= BLOCKSIZE,
                        i < n,
                        write_idx + BLOCKSIZE <= i + 1,
                        bucket < K,
                        keys.usable(),
                        keys.surroundings() == old(keys).surroundings(),
                        keys.keys().len() == n,
                        snapshot.len() == n,
                        *self == staged_full,
                        forall|p: int|
                            0 <= p < n && !(write_idx <= p < write_idx + j) ==> keys.keys()[p]
                                == snapshot[p],
                        forall|p: int|
                            write_idx <= p < write_idx + j ==> keys.keys()[p]
                                == self.blocks[bucket as int][p - write_idx],
                    decreases BLOCKSIZE - j,
                {
                    keys.store(write_idx + j, self.blocks[bucket][j]);
                    j += 1;
                }
                proof {
                    lemma_count_bounded(
                        snapshot.subrange(0, write_idx as int),
                        level as int,
                        bucket as int,
                    );
                }
                self.element_counts[bucket] = self.element_counts[bucket] + BLOCKSIZE as u64;
                self.block_counts[bucket] = 0;
                proof {
                    lemma_classify_flush(
                        &staged_full,
                        self,
                        snapshot,
                        keys.keys(),
                        input,
                        level as int,
                        i + 1,
                        write_idx as int,
                        bucket as int,
                    );
                }
                write_idx = write_idx + BLOCKSIZE;
            }
            i += 1;
        }
        let ghost flushed = *self;
        let mut b: usize = 0;
        proof {
            assert(input.subrange(0, n as int) =~= input);
            assert forall|d: int| 0 <= d < K implies #[trigger] flushed.element_counts[d]
                + flushed.block_counts[d] <= n by {
                lemma_count_bounded(input, level as int, d);
                assert(count_in_bucket(input.subrange(0, n as int), level as int, d)
                    == flushed.element_counts[d] + flushed.block_counts[d]);
            }
        }
        while b < K
            invariant
                b <= K,
                self.blocks == flushed.blocks,
                self.block_counts == flushed.block_counts,
                self.overflow == flushed.overflow,
                self.same_resources(old(self)),
                forall|d: int|
                    0 <= d < K ==> #[trigger] flushed.element_counts[d] + flushed.block_counts[d]
                        <= n,
                forall|d: int|
                    0 <= d < b ==> #[trigger] self.element_counts[d] == flushed.element_counts[d]
                        + flushed.block_counts[d],
                forall|d: int|
                    b <= d < K ==> #[trigger] self.element_counts[d] == flushed.element_counts[d],
            decreases K - b,
        {
            self.element_counts[b] = self.element_counts[b] + self.block_counts[b] as u64;
            b += 1;
        }
        self.classified_elements = write_idx;
        keys.read_ahead(false);
        proof {
            lemma_classify_finish(&flushed, self, keys.keys(), input, level as int);
            crate::model::lemma_bucket_counts_total(input, level as int, self.element_counts@);
        }
    }
}

/// A cleared sorter has classified the empty prefix of any input.
proof fn lemma_classify_start(sorter: &IPS2RaSorter, input: Seq<u64>, level: int)
    requires
        sorter.is_cleared(),
    ensures
        sorter.classifying(input, input, level, 0, 0, -1),
{
    let none = Seq::<u64>::empty();
    assert forall|b: int| 0 <= b < K implies #[trigger] sorter.staged(b) == none by {
        assert(sorter.block_counts[b] == 0);
        assert(sorter.staged(b) =~= none);
    }
    lemma_all_empty(sorter.staged_parts());
    assert(input.subrange(0, 0) =~= none);
    lemma_concat_multiset(none, none);
    assert(none + none =~= none);
    assert forall|b: int| 0 <= b < K implies #[trigger] count_in_bucket(
        input.subrange(0, 0),
        level,
        b,
    ) == sorter.element_counts[b] + sorter.block_counts[b] by {
        assert(sorter.block_counts[b] == 0);
        assert(sorter.element_counts[b] == 0);
    }
    assert forall|b: int| 0 <= b < K implies #[trigger] sorter.element_counts[b] % 128 == 0 by {
        assert(sorter.element_counts[b] == 0);
    }
    assert forall|b: int| 0 <= b < K implies (#[trigger] sorter.block_counts[b] < 128 || (b == -1
        && sorter.block_counts[b] == 128)) by {
        assert(sorter.block_counts[b] == 0);
    }
}

/// Appending key `i` of the input to the staging block of its bucket.
proof fn lemma_classify_stage(
    before: &IPS2RaSorter,
    after: &IPS2RaSorter,
    keys: Seq<u64>,
    input: Seq<u64>,
    level: int,
    i: int,
    w: int,
    bucket: int,
    key: u64,
)
    requires
        before.classifying(keys, input, level, i, w, -1),
        i < input.len(),
        key == input[i],
        bucket == bucket_of(key, level),
        0 <= bucket < K,
        after.block_counts@ == before.block_counts@.update(
            bucket,
            (before.block_counts[bucket] + 1) as usize,
        ),
        after.blocks@ == before.blocks@.update(bucket, after.blocks[bucket]),
        after.blocks[bucket]@ == before.blocks[bucket]@.update(
            before.block_counts[bucket] as int,
            key,
        ),
        after.element_counts == before.element_counts,
        after.overflow == before.overflow,
    ensures
        after.classifying(keys, input, level, i + 1, w, bucket),
{
    let front = keys.subrange(0, w);
    let piece = before.staged(bucket);
    assert(before.block_counts[bucket] < 128);
    assert(after.block_counts[bucket] == before.block_counts[bucket] + 1);
    assert(after.staged(bucket) =~= piece.push(key));
    assert forall|b: int| 0 <= b < K && b != bucket implies #[trigger] after.staged(b)
        == before.staged(b) by {
        assert(after.blocks[b] == before.blocks[b]);
        assert(after.block_counts[b] == before.block_counts[b]);
    }
    assert(after.staged_parts() =~= before.staged_parts().update(bucket, piece.push(key)));
    assert(before.staged_parts()[bucket] == piece);
    lemma_parts_update(before.staged_parts(), bucket, piece.push(key));
    assert(input.subrange(0, i + 1) =~= input.subrange(0, i).push(key));
    lemma_stage_key(
        front.to_multiset(),
        concat_parts(before.staged_parts()).to_multiset(),
        concat_parts(after.staged_parts()).to_multiset(),
        piece,
        key,
        input.subrange(0, i),
    );
    assert forall|b: int| 0 <= b < K implies #[trigger] count_in_bucket(
        input.subrange(0, i + 1),
        level,
        b,
    ) == after.element_counts[b] + after.block_counts[b] by {
        lemma_count_push(input.subrange(0, i), key, level, b);
        assert(count_in_bucket(input.subrange(0, i), level, b) == before.element_counts[b]
            + before.block_counts[b]);
        if b != bucket {
            assert(after.block_counts[b] == before.block_counts[b]);
        }
    }
    assert forall|b: int| 0 <= b < K implies all_in_bucket(#[trigger] after.staged(b), level, b) by {
        assert(all_in_bucket(before.staged(b), level, b));
    }
    assert forall|b: int| 0 <= b < K implies (#[trigger] after.block_counts[b] < 128 || (b
        == bucket && after.block_counts[b] == 128)) by {
        assert(before.block_counts[b] < 128);
        if b != bucket {
            assert(after.block_counts[b] == before.block_counts[b]);
        }
    }
    assert forall|b: int| 0 <= b < K implies #[trigger] count_in_bucket(
        keys.subrange(0, w),
        level,
        b,
    ) == after.element_counts[b] by {
        assert(count_in_bucket(keys.subrange(0, w), level, b) == before.element_counts[b]);
    }
    assert forall|b: int| 0 <= b < K implies #[trigger] after.element_counts[b] % 128 == 0 by {
        assert(before.element_counts[b] % 128 == 0);
    }
}

/// A full staging block fits behind the keys written back so far without
/// reaching a key that is still to be read.
proof fn lemma_classify_room(
    sorter: &IPS2RaSorter,
    keys: Seq<u64>,
    input: Seq<u64>,
    level: int,
    i: int,
    w: int,
    bucket: int,
)
    requires
        sorter.classifying(keys, input, level, i, w, bucket),
        0 <= bucket < K,
        sorter.block_counts[bucket] == 128,
    ensures
        w + 128 <= i,
{
    broadcast use vstd::multiset::group_multiset_axioms;

    let front = keys.subrange(0, w);
    let staged = concat_parts(sorter.staged_parts());
    vstd::seq_lib::to_multiset_len(front);
    vstd::seq_lib::to_multiset_len(staged);
    vstd::seq_lib::to_multiset_len(input.subrange(0, i));
    assert(front.to_multiset().add(staged.to_multiset()).len() == front.to_multiset().len()
        + staged.to_multiset().len());
    lemma_parts_len(sorter.staged_parts());
    lemma_parts_len_lower(sorter.staged_parts(), bucket);
    assert(sorter.staged_parts()[bucket] == sorter.staged(bucket));
    assert(sorter.staged(bucket).len() == 128);
}

/// Writing the full staging block of `bucket` back to the range at `w`.
proof fn lemma_classify_flush(
    before: &IPS2RaSorter,
    after: &IPS2RaSorter,
    keys_before: Seq<u64>,
    keys: Seq<u64>,
    input: Seq<u64>,
    level: int,
    i: int,
    w: int,
    bucket: int,
)
    requires
        before.classifying(keys_before, input, level, i, w, bucket),
        0 <= bucket < K,
        before.block_counts[bucket] == 128,
        w + 128 <= i,
        keys.len() == keys_before.len(),
        forall|p: int| 0 <= p < keys.len() && !(w <= p < w + 128) ==> keys[p] == keys_before[p],
        forall|p: int| w <= p < w + 128 ==> keys[p] == before.blocks[bucket][p - w],
        after.block_counts@ == before.block_counts@.update(bucket, 0usize),
        after.element_counts@ == before.element_counts@.update(
            bucket,
            (before.element_counts[bucket] + 128) as u64,
        ),
        before.element_counts[bucket] + 128 <= u64::MAX,
        after.blocks == before.blocks,
        after.overflow == before.overflow,
    ensures
        after.classifying(keys, input, level, i, w + 128, -1),
{
    let none = Seq::<u64>::empty();
    let front = keys_before.subrange(0, w);
    let block = before.blocks[bucket]@;
    assert(before.staged(bucket) =~= block);
    let grown = keys.subrange(0, w + 128);
    assert(grown =~= front + block);
    assert(after.staged(bucket) =~= none);
    assert forall|b: int| 0 <= b < K && b != bucket implies #[trigger] after.staged(b)
        == before.staged(b) by {
        assert(after.block_counts[b] == before.block_counts[b]);
    }
    assert(after.staged_parts() =~= before.staged_parts().update(bucket, none));
    assert(before.staged_parts()[bucket] == block);
    lemma_parts_update(before.staged_parts(), bucket, none);
    lemma_flush_block(
        front,
        block,
        concat_parts(before.staged_parts()).to_multiset(),
        concat_parts(after.staged_parts()).to_multiset(),
        input.subrange(0, i).to_multiset(),
    );
    assert(all_in_bucket(before.staged(bucket), level, bucket));
    lemma_uniform_append(front, block, level, bucket);
    assert forall|b: int| 0 <= b < K implies #[trigger] count_in_bucket(grown, level, b)
        == after.element_counts[b] by {
        lemma_count_concat(front, block, level, b);
        lemma_count_all_in_bucket(block, level, bucket, b);
        assert(count_in_bucket(front, level, b) == before.element_counts[b]);
        if b != bucket {
            assert(after.element_counts[b] == before.element_counts[b]);
        }
    }
    assert forall|b: int| 0 <= b < K implies all_in_bucket(#[trigger] after.staged(b), level, b) by {
        if b != bucket {
            assert(all_in_bucket(before.staged(b), level, b));
        }
    }
    assert forall|b: int| 0 <= b < K implies #[trigger] count_in_bucket(
        input.subrange(0, i),
        level,
        b,
    ) == after.element_counts[b] + after.block_counts[b] by {
        assert(count_in_bucket(input.subrange(0, i), level, b) == before.element_counts[b]
            + before.block_counts[b]);
        if b != bucket {
            assert(after.element_counts[b] == before.element_counts[b]);
            assert(after.block_counts[b] == before.block_counts[b]);
        }
    }
    assert forall|b: int| 0 <= b < K implies (#[trigger] after.block_counts[b] < 128 || (b == -1
        && after.block_counts[b] == 128)) by {
        if b != bucket {
            assert(after.block_counts[b] == before.block_counts[b]);
            assert(before.block_counts[b] < 128 || (b == bucket && before.block_counts[b] == 128));
        }
    }
    assert forall|b: int| 0 <= b < K implies #[trigger] after.element_counts[b] % 128 == 0 by {
        assert(before.element_counts[b] % 128 == 0);
        if b != bucket {
            assert(after.element_counts[b] == before.element_counts[b]);
        }
    }
}

/// Counting the staged keys in closes classification.
proof fn lemma_classify_finish(
    before: &IPS2RaSorter,
    after: &IPS2RaSorter,
    keys: Seq<u64>,
    input: Seq<u64>,
    level: int,
)
    requires
        before.classifying(keys, input, level, input.len() as int, after.classified_elements as int, -1),
        after.blocks == before.blocks,
        after.block_counts == before.block_counts,
        after.overflow == before.overflow,
        forall|d: int|
            0 <= d < K ==> #[trigger] after.element_counts[d] == before.element_counts[d]
                + before.block_counts[d],
    ensures
        after.classified(keys, input, level),
{
    let c = after.classified_elements as int;
    assert(input.subrange(0, input.len() as int) =~= input);
    assert(keys.subrange(c, keys.len() as int) =~= input.subrange(c, input.len() as int));
    assert forall|d: int| 0 <= d < K implies #[trigger] after.staged(d) == before.staged(d) by {}
    assert(after.staged_parts() =~= before.staged_parts());
    assert forall|d: int| 0 <= d < K implies all_in_bucket(#[trigger] after.staged(d), level, d) by {
        assert(all_in_bucket(before.staged(d), level, d));
    }
    assert forall|d: int| 0 <= d < K implies #[trigger] after.element_counts[d] == count_in_bucket(
        input,
        level,
        d,
    ) by {
        assert(count_in_bucket(input.subrange(0, input.len() as int), level, d)
            == before.element_counts[d] + before.block_counts[d]);
    }
    assert forall|d: int| 0 <= d < K implies #[trigger] after.block_counts[d]
        == after.element_counts[d] % 128 by {
        assert(before.element_counts[d] % 128 == 0);
        assert(before.block_counts[d] < 128);
        lemma_whole_and_rest(before.element_counts[d] as int, before.block_counts[d] as int);
    }
    assert forall|d: int| 0 <= d < K implies #[trigger] count_in_bucket(
        keys.subrange(0, c),
        level,
        d,
    ) == (after.element_counts[d] / 128) * 128 by {
        assert(before.element_counts[d] % 128 == 0);
        assert(before.block_counts[d] < 128);
        lemma_whole_and_rest(before.element_counts[d] as int, before.block_counts[d] as int);
        assert(count_in_bucket(keys.subrange(0, c), level, d) == before.element_counts[d]);
    }
}

/// A count made of whole blocks and a rest below one block splits back into them.
proof fn lemma_whole_and_rest(whole: int, rest: int)
    requires
        0 <= whole,
        whole % 128 == 0,
        0 <= rest < 128,
    ensures
        ((whole + rest) / 128) * 128 == whole,
        (whole + rest) % 128 == rest,
{
}

/// Pieces that are all empty hold no key.
proof fn lemma_all_empty(parts: Seq<Seq<u64>>)
    requires
        forall|b: int| 0 <= b < parts.len() ==> (#[trigger] parts[b]).len() == 0,
    ensures
        concat_parts(parts) == Seq::<u64>::empty(),
    decreases parts.len(),
{
    if parts.len() > 0 {
        lemma_all_empty(parts.drop_last());
        assert(parts[parts.len() - 1].len() == 0);
        assert(concat_parts(parts) =~= Seq::<u64>::empty());
    }
}

} // verus!
