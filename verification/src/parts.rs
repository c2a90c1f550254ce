//! Keys held in several pieces: the staged blocks of all buckets, the block
//! regions of all buckets, the buckets of a partitioned range.  The pieces are
//! modelled as a sequence of sequences and reasoned about through their
//! concatenation.

use crate::model::{
    all_in_bucket, count_in_bucket, lemma_concat_multiset, lemma_count_all_in_bucket,
    lemma_count_concat,
};
use vstd::multiset::Multiset;
use vstd::prelude::*;

verus! {

/// An exchange of `p` for `q` survives the addition of `l` on both sides.
pub proof fn lemma_exchange_add(
    x: Multiset<u64>,
    p: Multiset<u64>,
    f: Multiset<u64>,
    q: Multiset<u64>,
    l: Multiset<u64>,
)
    requires
        x.add(p) == f.add(q),
    ensures
        x.add(l).add(p) == f.add(l).add(q),
{
    broadcast use vstd::multiset::group_multiset_axioms;

    assert forall|v: u64| x.add(l).add(p).count(v) == f.add(l).add(q).count(v) by {
        assert(x.add(p).count(v) == f.add(q).count(v));
        assert(x.add(p).count(v) == x.count(v) + p.count(v));
        assert(f.add(q).count(v) == f.count(v) + q.count(v));
        assert(x.add(l).count(v) == x.count(v) + l.count(v));
        assert(f.add(l).count(v) == f.count(v) + l.count(v));
        assert(x.add(l).add(p).count(v) == x.add(l).count(v) + p.count(v));
        assert(f.add(l).add(q).count(v) == f.add(l).count(v) + q.count(v));
    }
    assert(x.add(l).add(p) =~= f.add(l).add(q));
}

/// Sums of sums can be regrouped.
pub proof fn lemma_add_regroup(
    a: Multiset<u64>,
    b: Multiset<u64>,
    c: Multiset<u64>,
    d: Multiset<u64>,
)
    ensures
        a.add(b).add(c.add(d)) == a.add(c).add(b.add(d)),
{
    broadcast use vstd::multiset::group_multiset_axioms;

    assert(a.add(b).add(c.add(d)) =~= a.add(c).add(b.add(d)));
}

/// All pieces of `parts`, one after the other.
pub open spec fn concat_parts(parts: Seq<Seq<u64>>) -> Seq<u64>
    decreases parts.len(),
{
    if parts.len() == 0 {
        Seq::<u64>::empty()
    } else {
        concat_parts(parts.drop_last()) + parts.last()
    }
}

/// Total number of keys in `parts`.
pub open spec fn parts_len(parts: Seq<Seq<u64>>) -> nat
    decreases parts.len(),
{
    if parts.len() == 0 {
        0
    } else {
        parts_len(parts.drop_last()) + parts.last().len()
    }
}

pub proof fn lemma_parts_len(parts: Seq<Seq<u64>>)
    ensures
        concat_parts(parts).len() == parts_len(parts),
    decreases parts.len(),
{
    if parts.len() > 0 {
        lemma_parts_len(parts.drop_last());
    }
}

pub proof fn lemma_parts_len_lower(parts: Seq<Seq<u64>>, d: int)
    requires
        0 <= d < parts.len(),
    ensures
        parts_len(parts) >= parts[d].len(),
    decreases parts.len(),
{
    if d < parts.len() - 1 {
        lemma_parts_len_lower(parts.drop_last(), d);
    }
}

/// Replacing piece `d` by `piece` exchanges the keys of the old piece for those
/// of the new one and leaves the rest alone.
pub proof fn lemma_parts_update(parts: Seq<Seq<u64>>, d: int, piece: Seq<u64>)
    requires
        0 <= d < parts.len(),
    ensures
        concat_parts(parts.update(d, piece)).to_multiset().add(parts[d].to_multiset())
            == concat_parts(parts).to_multiset().add(piece.to_multiset()),
    decreases parts.len(),
{
    broadcast use vstd::multiset::group_multiset_axioms;

    let after = parts.update(d, piece);
    let front = parts.drop_last();
    assert(concat_parts(parts) == concat_parts(front) + parts.last());
    assert(concat_parts(after) == concat_parts(after.drop_last()) + after.last());
    lemma_concat_multiset(concat_parts(front), parts.last());
    lemma_concat_multiset(concat_parts(after.drop_last()), after.last());
    if d == parts.len() - 1 {
        assert(after.drop_last() =~= front);
        assert(after.last() == piece);
        assert(concat_parts(after).to_multiset().add(parts[d].to_multiset()) =~= concat_parts(
            parts,
        ).to_multiset().add(piece.to_multiset()));
    } else {
        assert(after.drop_last() =~= front.update(d, piece));
        assert(after.last() == parts.last());
        assert(front[d] == parts[d]);
        lemma_parts_update(front, d, piece);
        lemma_exchange_add(
            concat_parts(front.update(d, piece)).to_multiset(),
            parts[d].to_multiset(),
            concat_parts(front).to_multiset(),
            piece.to_multiset(),
            parts.last().to_multiset(),
        );
    }
}

/// The concatenation holds at least as many keys of a bucket as any one piece.
pub proof fn lemma_parts_count_lower(parts: Seq<Seq<u64>>, d: int, level: int, e: int)
    requires
        0 <= d < parts.len(),
    ensures
        count_in_bucket(concat_parts(parts), level, e) >= count_in_bucket(parts[d], level, e),
    decreases parts.len(),
{
    lemma_count_concat(concat_parts(parts.drop_last()), parts.last(), level, e);
    if d < parts.len() - 1 {
        lemma_parts_count_lower(parts.drop_last(), d, level, e);
    }
}

/// Where piece `b` holds only keys of bucket `b`, the keys of bucket `e` in the
/// concatenation are exactly piece `e`.
pub proof fn lemma_parts_count_sorted_out(parts: Seq<Seq<u64>>, level: int, e: int)
    requires
        forall|b: int| 0 <= b < parts.len() ==> all_in_bucket(#[trigger] parts[b], level, b),
    ensures
        count_in_bucket(concat_parts(parts), level, e) == if 0 <= e < parts.len() {
            parts[e].len()
        } else {
            0
        },
    decreases parts.len(),
{
    if parts.len() > 0 {
        let front = parts.drop_last();
        assert forall|b: int| 0 <= b < front.len() implies all_in_bucket(
            #[trigger] front[b],
            level,
            b,
        ) by {
            assert(front[b] == parts[b]);
        }
        lemma_parts_count_sorted_out(front, level, e);
        lemma_count_concat(concat_parts(front), parts.last(), level, e);
        assert(all_in_bucket(parts[parts.len() - 1], level, parts.len() - 1));
        lemma_count_all_in_bucket(parts.last(), level, parts.len() - 1, e);
    }
}

/// Keys add up piece by piece: where every piece of `whole` holds the keys of
/// the matching pieces of `left` and `right`, so do the concatenations.
pub proof fn lemma_parts_add(whole: Seq<Seq<u64>>, left: Seq<Seq<u64>>, right: Seq<Seq<u64>>)
    requires
        whole.len() == left.len(),
        whole.len() == right.len(),
        forall|b: int|
            0 <= b < whole.len() ==> (#[trigger] whole[b]).to_multiset() == left[b].to_multiset().add(
                right[b].to_multiset(),
            ),
    ensures
        concat_parts(whole).to_multiset() == concat_parts(left).to_multiset().add(
            concat_parts(right).to_multiset(),
        ),
    decreases whole.len(),
{
    broadcast use vstd::multiset::group_multiset_axioms;

    if whole.len() > 0 {
        let n = whole.len() - 1;
        assert forall|b: int| 0 <= b < n implies (#[trigger] whole.drop_last()[b]).to_multiset()
            == left.drop_last()[b].to_multiset().add(right.drop_last()[b].to_multiset()) by {
            assert(whole.drop_last()[b] == whole[b]);
        }
        lemma_parts_add(whole.drop_last(), left.drop_last(), right.drop_last());
        assert(concat_parts(whole) == concat_parts(whole.drop_last()) + whole.last());
        assert(concat_parts(left) == concat_parts(left.drop_last()) + left.last());
        assert(concat_parts(right) == concat_parts(right.drop_last()) + right.last());
        lemma_concat_multiset(concat_parts(whole.drop_last()), whole.last());
        lemma_concat_multiset(concat_parts(left.drop_last()), left.last());
        lemma_concat_multiset(concat_parts(right.drop_last()), right.last());
        assert(whole[n].to_multiset() == left[n].to_multiset().add(right[n].to_multiset()));
        lemma_add_regroup(
            concat_parts(left.drop_last()).to_multiset(),
            concat_parts(right.drop_last()).to_multiset(),
            left[n].to_multiset(),
            right[n].to_multiset(),
        );
    } else {
        assert(concat_parts(left) =~= Seq::<u64>::empty());
        assert(concat_parts(right) =~= Seq::<u64>::empty());
        assert(concat_parts(whole) =~= Seq::<u64>::empty());
        lemma_concat_multiset(Seq::<u64>::empty(), Seq::<u64>::empty());
        assert(Seq::<u64>::empty() + Seq::<u64>::empty() =~= Seq::<u64>::empty());
    }
}

/// Consecutive ranges of a sequence, cut at `cuts`, concatenate to its prefix.
pub proof fn lemma_parts_of_ranges(keys: Seq<u64>, cuts: Seq<int>, parts: Seq<Seq<u64>>)
    requires
        cuts.len() == parts.len() + 1,
        cuts[0] == 0,
        forall|b: int| 0 <= b < parts.len() ==> cuts[b] <= #[trigger] cuts[b + 1],
        cuts[parts.len() as int] <= keys.len(),
        forall|b: int|
            0 <= b < parts.len() ==> #[trigger] parts[b] == keys.subrange(cuts[b], cuts[b + 1]),
    ensures
        concat_parts(parts) == keys.subrange(0, cuts[parts.len() as int]),
    decreases parts.len(),
{
    if parts.len() == 0 {
        assert(concat_parts(parts) =~= keys.subrange(0, 0));
    } else {
        let n = parts.len() - 1;
        assert forall|b: int| 0 <= b <= n implies 0 <= #[trigger] cuts[b] <= cuts[n + 1]
            && cuts[b] <= keys.len() by {
            lemma_cuts_monotone(cuts, b, n + 1);
            lemma_cuts_monotone(cuts, 0, b);
        }
        let front = parts.drop_last();
        let front_cuts = cuts.drop_last();
        assert forall|b: int| 0 <= b < front.len() implies #[trigger] front[b] == keys.subrange(
            front_cuts[b],
            front_cuts[b + 1],
        ) by {
            assert(front[b] == parts[b]);
        }
        assert forall|b: int| 0 <= b < front.len() implies front_cuts[b] <= #[trigger] front_cuts[b
            + 1] by {
            assert(cuts[b] <= cuts[b + 1]);
        }
        lemma_parts_of_ranges(keys, front_cuts, front);
        assert(parts.last() == keys.subrange(cuts[n], cuts[n + 1]));
        assert(concat_parts(parts) =~= keys.subrange(0, cuts[n + 1]));
    }
}

/// Cuts that never step back are ordered over any distance.
pub proof fn lemma_cuts_monotone(cuts: Seq<int>, a: int, b: int)
    requires
        0 <= a <= b < cuts.len(),
        forall|i: int| 0 <= i < cuts.len() - 1 ==> cuts[i] <= #[trigger] cuts[i + 1],
    ensures
        cuts[a] <= cuts[b],
    decreases b - a,
{
    if a < b {
        lemma_cuts_monotone(cuts, a, b - 1);
        assert(cuts[b - 1] <= cuts[b - 1 + 1]);
    }
}

} // verus!
