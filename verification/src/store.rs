//! Where the keys of a task live.  The partitioning engine reads and writes
//! keys through this interface only, so the same verified code serves a slice
//! in memory and a range of a block device.

use crate::base_case::insertion_sort;
use crate::config::THRESHOLD;
use crate::model::{is_permutation, is_sorted};
use vstd::prelude::*;

verus! {

pub trait KeyStore {
    /// The keys of the task, in their current order.
    spec fn keys(&self) -> Seq<u64>;

    /// What the store needs to hold in order to work.
    spec fn usable(&self) -> bool;

    /// What lies around the keys of the task and must not change.
    spec fn surroundings(&self) -> Seq<u64>;

    fn size(&self) -> (n: usize)
        requires
            self.usable(),
        ensures
            n == self.keys().len(),
    ;

    fn load(&mut self, i: usize) -> (key: u64)
        requires
            old(self).usable(),
            i < old(self).keys().len(),
        ensures
            final(self).usable(),
            final(self).keys() == old(self).keys(),
            final(self).surroundings() == old(self).surroundings(),
            key == old(self).keys()[i as int],
    ;

    fn store(&mut self, i: usize, key: u64)
        requires
            old(self).usable(),
            i < old(self).keys().len(),
        ensures
            final(self).usable(),
            final(self).keys() == old(self).keys().update(i as int, key),
            final(self).surroundings() == old(self).surroundings(),
    ;

    /// Tells the store whether the keys are about to be read one after the
    /// other, so that it may fetch ahead.  The keys stay as they are.
    fn read_ahead(&mut self, on: bool)
        requires
            old(self).usable(),
        ensures
            final(self).usable(),
            final(self).keys() == old(self).keys(),
            final(self).surroundings() == old(self).surroundings(),
    ;

    /// Sorts the keys in `lo..hi`, a range of at most `THRESHOLD` keys.
    fn sort_small(&mut self, lo: usize, hi: usize)
        requires
            old(self).usable(),
            lo <= hi <= old(self).keys().len(),
            hi - lo <= THRESHOLD,
        ensures
            final(self).usable(),
            final(self).surroundings() == old(self).surroundings(),
            final(self).keys().len() == old(self).keys().len(),
            final(self).keys().subrange(0, lo as int) == old(self).keys().subrange(0, lo as int),
            final(self).keys().subrange(hi as int, old(self).keys().len() as int) == old(
                self,
            ).keys().subrange(hi as int, old(self).keys().len() as int),
            is_sorted(final(self).keys().subrange(lo as int, hi as int)),
            is_permutation(
                old(self).keys().subrange(lo as int, hi as int),
                final(self).keys().subrange(lo as int, hi as int),
            ),
    ;
}

impl KeyStore for [u64] {
    open spec fn keys(&self) -> Seq<u64> {
        self@
    }

    open spec fn usable(&self) -> bool {
        true
    }

    open spec fn surroundings(&self) -> Seq<u64> {
        Seq::empty()
    }

    fn size(&self) -> (n: usize) {
        self.len()
    }

    fn load(&mut self, i: usize) -> (key: u64) {
        self[i]
    }

    fn store(&mut self, i: usize, key: u64) {
        self[i] = key;
    }

    fn read_ahead(&mut self, on: bool) {
    }

    fn sort_small(&mut self, lo: usize, hi: usize) {
        let ghost before = self@;
        let (_head, rest) = self.split_at_mut(lo);
        let (middle, _tail) = rest.split_at_mut(hi - lo);
        let ghost unsorted = middle@;
        insertion_sort(middle);
        let ghost ordered = middle@;
        proof {
            let after = self@;
            let n = before.len() as int;
            assert(after =~= before.subrange(0, lo as int) + (ordered + before.subrange(
                hi as int,
                n,
            )));
            assert(after.subrange(0, lo as int) =~= before.subrange(0, lo as int));
            assert(after.subrange(hi as int, n) =~= before.subrange(hi as int, n));
            assert(after.subrange(lo as int, hi as int) =~= ordered);
            assert(before.subrange(lo as int, hi as int) =~= unsorted);
        }
    }
}

} // verus!
