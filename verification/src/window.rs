//! A range of keys on the device, seen through a bounded window of page
//! buffers.  Every buffer of the window holds one page of the device at a time;
//! a page is read when a key of it is first asked for, and written back when
//! its buffer is needed for another page or the window is flushed.  The number
//! of buffers in use never depends on the number of keys.

use crate::base_case::insertion_sort;
use crate::config::{ELEMENTS_PER_CHUNK, LBA_PER_CHUNK};
use crate::device::{Dma, QueuePair};
use crate::sort::{read_write_elements, transferred};
use crate::store::KeyStore;
use vstd::prelude::*;

verus! {

/// Marks a buffer of the window that holds no page.
pub const NO_PAGE: usize = usize::MAX;

pub struct DeviceKeys {
    pub qpair: QueuePair,
    pub buffers: Vec<Dma>,
    pub pages: Vec<usize>,
    pub dirty: Vec<bool>,
    pub first: usize,
    pub len: usize,
    pub ahead: bool,
}

/// Puts `key` at place `j` of `buffer`.
fn set_key(buffer: &mut Dma, j: usize, key: u64)
    requires
        j < old(buffer).keys@.len(),
    ensures
        final(buffer).keys@ == old(buffer).keys@.update(j as int, key),
{
    buffer.keys[j] = key;
}

impl DeviceKeys {
    /// Number of buffers in the window.
    pub open spec fn slots(&self) -> int {
        self.buffers@.len() as int
    }

    /// The buffer that `page` goes to.
    pub open spec fn slot_of(&self, page: int) -> int {
        page % self.slots()
    }

    /// The keys in buffer `s`.
    pub open spec fn held(&self, s: int) -> Seq<u64> {
        self.buffers@[s].keys@
    }

    /// The key at position `a` of the device as the window shows it: the key in
    /// the buffer if the page of `a` is in the window, else the key on the
    /// device.
    pub open spec fn key_at(&self, a: int) -> u64 {
        let page = a / 1024;
        let s = self.slot_of(page);
        if self.pages@[s] == page {
            self.held(s)[a % 1024]
        } else {
            self.qpair.image@[a]
        }
    }

    /// All keys of the device as the window shows them.
    pub open spec fn shown(&self) -> Seq<u64> {
        Seq::new(self.qpair.image@.len(), |a: int| self.key_at(a))
    }

    /// Buffer `s` holds what the device holds of the page in it.
    pub open spec fn clean(&self, s: int) -> bool {
        forall|j: int|
            0 <= j < 1024 ==> #[trigger] self.held(s)[j] == self.qpair.image@[self.pages@[s] * 1024
                + j]
    }

    /// Buffer `s` has the size of a page; the page it holds, if any, belongs
    /// there and lies on the device; and it holds what the device holds unless
    /// it is marked dirty.
    pub open spec fn slot_ok(&self, s: int) -> bool {
        &&& self.held(s).len() == 1024
        &&& self.pages@[s] != NO_PAGE ==> self.slot_of(self.pages@[s] as int) == s
        &&& self.pages@[s] != NO_PAGE ==> self.pages@[s] * 1024 + 1024 <= self.qpair.image@.len()
        &&& self.pages@[s] != NO_PAGE && !self.dirty@[s] ==> self.clean(s)
    }

    pub open spec fn inv(&self) -> bool {
        &&& 1 <= self.slots() <= usize::MAX
        &&& self.pages@.len() == self.slots()
        &&& self.dirty@.len() == self.slots()
        &&& self.qpair.wf()
        &&& self.qpair.in_flight == 0
        &&& self.qpair.image@.len() % 1024 == 0
        &&& self.qpair.image@.len() < usize::MAX
        &&& self.first + self.len <= self.qpair.image@.len()
        &&& forall|s: int| 0 <= s < self.slots() ==> #[trigger] self.slot_ok(s)
    }

    /// The window is on the same range of a device of the same size as `other`.
    pub open spec fn same_range(&self, other: &Self) -> bool {
        &&& self.first == other.first
        &&& self.len == other.len
        &&& self.slots() == other.slots()
        &&& self.qpair.image@.len() == other.qpair.image@.len()
    }

    /// The window is on the same range as `other` and shows the same keys.
    pub open spec fn shows_same(&self, other: &Self) -> bool {
        &&& self.same_range(other)
        &&& forall|a: int|
            0 <= a < self.qpair.image@.len() ==> #[trigger] self.key_at(a) == other.key_at(a)
    }

    /// A window of `buffers` on the `len` keys of the device from position
    /// `first` on.  No page is in the window yet.
    pub fn open(qpair: QueuePair, buffers: Vec<Dma>, first: usize, len: usize) -> (window: DeviceKeys)
        requires
            qpair.wf(),
            qpair.in_flight == 0,
            qpair.image@.len() % 1024 == 0,
            qpair.image@.len() < usize::MAX,
            first + len <= qpair.image@.len(),
            buffers@.len() >= 1,
            forall|s: int| 0 <= s < buffers@.len() ==> (#[trigger] buffers@[s]).keys@.len() == 1024,
        ensures
            window.inv(),
            window.first == first,
            window.len == len,
            window.qpair.image@ == qpair.image@,
            window.shown() == qpair.image@,
            window.buffers@.len() == buffers@.len(),
            !window.ahead,
    {
        let slots = buffers.len();
        let mut pages: Vec<usize> = Vec::new();
        let mut dirty: Vec<bool> = Vec::new();
        let mut s: usize = 0;
        while s < slots
            invariant
                s <= slots,
                pages@.len() == s,
                dirty@.len() == s,
                forall|t: int| 0 <= t < s ==> pages@[t] == NO_PAGE,
            decreases slots - s,
        {
            pages.push(NO_PAGE);
            dirty.push(false);
            s += 1;
        }
        let window = DeviceKeys { qpair, buffers, pages, dirty, first, len, ahead: false };
        proof {
            assert forall|t: int| 0 <= t < window.slots() implies #[trigger] window.slot_ok(t) by {
                assert(window.buffers@[t].keys@.len() == 1024);
            }
            assert forall|a: int| 0 <= a < window.qpair.image@.len() implies window.key_at(a)
                == window.qpair.image@[a] by {
                let page = a / 1024;
                vstd::arithmetic::div_mod::lemma_mod_pos_bound(page, window.slots());
                assert(window.pages@[window.slot_of(page)] == NO_PAGE);
            }
            assert(window.shown() =~= window.qpair.image@);
        }
        window
    }

    /// Writes the page in buffer `s` back to the device if it is dirty.
    fn write_back(&mut self, s: usize)
        requires
            old(self).inv(),
            s < old(self).slots(),
        ensures
            final(self).inv(),
            final(self).shows_same(old(self)),
            final(self).pages@ == old(self).pages@,
            final(self).ahead == old(self).ahead,
            !final(self).dirty@[s as int],
            forall|t: int| 0 <= t < old(self).slots() ==> final(self).held(t) == old(self).held(t),
            forall|t: int|
                0 <= t < old(self).slots() && t != s ==> final(self).dirty@[t] == old(self).dirty@[t],
    {
        proof {
            assert(self.slot_ok(s as int));
        }
        let ghost before = *self;
        if self.pages[s] != NO_PAGE && self.dirty[s] {
            let page = self.pages[s];
            read_write_elements(
                &mut self.qpair,
                &mut self.buffers[s],
                page * LBA_PER_CHUNK,
                0,
                ELEMENTS_PER_CHUNK,
                true,
            );
        }
        self.dirty[s] = false;
        proof {
            assert forall|t: int| 0 <= t < self.slots() implies self.held(t) == before.held(t) by {}
            assert forall|t: int| 0 <= t < self.slots() implies #[trigger] self.slot_ok(t) by {
                assert(before.slot_ok(t));
                assert(before.slot_ok(s as int));
                if self.pages@[t] != NO_PAGE && !self.dirty@[t] {
                    assert forall|j: int| 0 <= j < 1024 implies #[trigger] self.held(t)[j]
                        == self.qpair.image@[self.pages@[t] * 1024 + j] by {
                        if t != s {
                            assert(before.clean(t));
                            assert(before.held(t)[j] == before.qpair.image@[before.pages@[t] * 1024
                                + j]);
                        } else if before.dirty@[s as int] {
                        } else {
                            assert(before.clean(t));
                            assert(before.held(t)[j] == before.qpair.image@[before.pages@[t] * 1024
                                + j]);
                        }
                    }
                }
            }
            assert forall|a: int| 0 <= a < self.qpair.image@.len() implies #[trigger] self.key_at(a)
                == before.key_at(a) by {
                let page = a / 1024;
                vstd::arithmetic::div_mod::lemma_mod_pos_bound(page, self.slots());
                let t = self.slot_of(page);
                assert(before.slot_ok(t));
                assert(before.slot_ok(s as int));
            }
        }
    }

    /// Brings `page` into the window and returns the buffer it is in.  When
    /// the page had to be read and keys are read one after the other, the
    /// page behind it is read as well, into the buffer of its own.
    fn ensure_page(&mut self, page: usize) -> (s: usize)
        requires
            old(self).inv(),
            page * 1024 + 1024 <= old(self).qpair.image@.len(),
        ensures
            final(self).inv(),
            final(self).shows_same(old(self)),
            final(self).ahead == old(self).ahead,
            s == old(self).slot_of(page as int),
            0 <= s < final(self).slots(),
            final(self).pages@[s as int] == page,
    {
        let slots = self.buffers.len();
        let image_len = self.qpair.image.len();
        let missed = self.pages[page % slots] != page;
        let s = self.fetch_page(page);
        if missed && self.ahead && slots >= 2 && image_len - page * ELEMENTS_PER_CHUNK
            >= 2 * ELEMENTS_PER_CHUNK {
            let ghost fetched = *self;
            proof {
                vstd::arithmetic::div_mod::lemma_mod_pos_bound(page as int, slots as int);
                vstd::arithmetic::div_mod::lemma_mod_pos_bound(page + 1, slots as int);
                lemma_next_slot(page as int, slots as int);
            }
            let next = self.fetch_page(page + 1);
            proof {
                assert forall|a: int|
                    0 <= a < self.qpair.image@.len() implies #[trigger] self.key_at(a) == old(
                    self,
                ).key_at(a) by {
                    assert(fetched.key_at(a) == old(self).key_at(a));
                }
            }
        }
        s
    }

    /// Brings `page` into the window and returns the buffer it is in.
    fn fetch_page(&mut self, page: usize) -> (s: usize)
        requires
            old(self).inv(),
            page * 1024 + 1024 <= old(self).qpair.image@.len(),
        ensures
            final(self).inv(),
            final(self).shows_same(old(self)),
            final(self).ahead == old(self).ahead,
            s == old(self).slot_of(page as int),
            0 <= s < final(self).slots(),
            final(self).pages@[s as int] == page,
            forall|t: int|
                0 <= t < old(self).slots() && t != s ==> final(self).pages@[t] == old(self).pages@[t],
    {
        let slots = self.buffers.len();
        let s = page % slots;
        if self.pages[s] != page {
            self.write_back(s);
            let ghost before = *self;
            proof {
                assert(before.slot_ok(s as int));
            }
            read_write_elements(
                &mut self.qpair,
                &mut self.buffers[s],
                page * LBA_PER_CHUNK,
                0,
                ELEMENTS_PER_CHUNK,
                false,
            );
            self.pages[s] = page;
            self.dirty[s] = false;
            proof {
                assert forall|t: int| 0 <= t < self.slots() && t != s implies self.held(t)
                    == before.held(t) by {}
                assert forall|t: int| 0 <= t < self.slots() implies #[trigger] self.slot_ok(t) by {
                    assert(before.slot_ok(t));
                    if t != s {
                        if before.pages@[t] != NO_PAGE && !before.dirty@[t] {
                            assert(before.clean(t));
                            assert forall|j: int| 0 <= j < 1024 implies #[trigger] self.held(t)[j]
                                == self.qpair.image@[self.pages@[t] * 1024 + j] by {
                                assert(before.held(t)[j] == before.qpair.image@[before.pages@[t]
                                    * 1024 + j]);
                            }
                        }
                    } else {
                        assert forall|j: int| 0 <= j < 1024 implies #[trigger] self.held(t)[j]
                            == self.qpair.image@[self.pages@[t] * 1024 + j] by {}
                    }
                }
                assert forall|a: int|
                    0 <= a < self.qpair.image@.len() implies #[trigger] self.key_at(a)
                    == before.key_at(a) by {
                    let q = a / 1024;
                    vstd::arithmetic::div_mod::lemma_mod_pos_bound(q, self.slots());
                    let t = self.slot_of(q);
                    assert(before.slot_ok(t));
                    if t == s {
                        if q == page {
                            assert(self.held(t)[a % 1024] == self.qpair.image@[page * 1024 + a
                                % 1024]);
                        } else if before.pages@[t] == q {
                            assert(before.clean(t));
                            assert(before.held(t)[a % 1024] == before.qpair.image@[q * 1024 + a
                                % 1024]);
                        }
                    }
                }
            }
        }
        s
    }

    /// The key at place `i` of the range.
    pub fn get(&mut self, i: usize) -> (key: u64)
        requires
            old(self).inv(),
            i < old(self).len,
        ensures
            final(self).inv(),
            final(self).shows_same(old(self)),
            final(self).ahead == old(self).ahead,
            key == old(self).key_at(old(self).first + i),
    {
        let a = self.first + i;
        let s = self.ensure_page(a / ELEMENTS_PER_CHUNK);
        proof {
            assert(self.slot_ok(s as int));
            assert(self.key_at(a as int) == old(self).key_at(a as int));
        }
        self.buffers[s].keys[a % ELEMENTS_PER_CHUNK]
    }

    /// Puts `key` at place `i` of the range.
    pub fn put(&mut self, i: usize, key: u64)
        requires
            old(self).inv(),
            i < old(self).len,
        ensures
            final(self).inv(),
            final(self).same_range(old(self)),
            final(self).ahead == old(self).ahead,
            forall|b: int|
                0 <= b < old(self).qpair.image@.len() ==> #[trigger] final(self).key_at(b) == if b
                    == old(self).first + i {
                    key
                } else {
                    old(self).key_at(b)
                },
    {
        let a = self.first + i;
        let s = self.ensure_page(a / ELEMENTS_PER_CHUNK);
        let ghost before = *self;
        proof {
            assert(self.slot_ok(s as int));
        }
        set_key(&mut self.buffers[s], a % ELEMENTS_PER_CHUNK, key);
        self.dirty[s] = true;
        proof {
            assert forall|t: int| 0 <= t < self.slots() && t != s implies self.held(t)
                == before.held(t) by {}
            assert forall|t: int| 0 <= t < self.slots() implies #[trigger] self.slot_ok(t) by {
                assert(before.slot_ok(t));
                if t != s && before.pages@[t] != NO_PAGE && !before.dirty@[t] {
                    assert(before.clean(t));
                    assert forall|j: int| 0 <= j < 1024 implies #[trigger] self.held(t)[j]
                        == self.qpair.image@[self.pages@[t] * 1024 + j] by {
                        assert(before.held(t)[j] == before.qpair.image@[before.pages@[t] * 1024
                            + j]);
                    }
                }
            }
            assert forall|b: int|
                0 <= b < self.qpair.image@.len() implies #[trigger] self.key_at(b) == if b == a {
                key
            } else {
                old(self).key_at(b)
            } by {
                let q = b / 1024;
                vstd::arithmetic::div_mod::lemma_mod_pos_bound(q, self.slots());
                let t = self.slot_of(q);
                assert(before.key_at(b) == old(self).key_at(b));
            }
        }
    }

    /// Writes all dirty pages back, so that the device holds what the window
    /// shows.
    pub fn flush(&mut self)
        requires
            old(self).inv(),
        ensures
            final(self).inv(),
            final(self).shows_same(old(self)),
            final(self).qpair.image@ == old(self).shown(),
    {
        let slots = self.buffers.len();
        let mut s: usize = 0;
        while s < slots
            invariant
                s <= slots,
                slots == self.slots(),
                self.inv(),
                self.shows_same(old(self)),
                forall|t: int| 0 <= t < s ==> !self.dirty@[t],
            decreases slots - s,
        {
            let ghost before = *self;
            self.write_back(s);
            proof {
                assert forall|a: int|
                    0 <= a < self.qpair.image@.len() implies #[trigger] self.key_at(a) == old(self).key_at(a) by {
                    assert(before.key_at(a) == old(self).key_at(a));
                }
            }
            s += 1;
        }
        proof {
            assert forall|a: int| 0 <= a < self.qpair.image@.len() implies self.qpair.image@[a] == old(self).shown()[a] by {
                let page = a / 1024;
                vstd::arithmetic::div_mod::lemma_mod_pos_bound(page, self.slots());
                let t = self.slot_of(page);
                assert(self.slot_ok(t));
                assert(self.key_at(a) == old(self).key_at(a));
                if self.pages@[t] == page {
                    assert(self.clean(t));
                    assert(self.held(t)[a % 1024] == self.qpair.image@[self.pages@[t] * 1024 + a
                        % 1024]);
                }
            }
            assert(self.qpair.image@ =~= old(self).shown());
        }
    }

    /// Gives the queue pair and the buffers back.  Pages that were not flushed
    /// are lost.
    pub fn close(self) -> (parts: (QueuePair, Vec<Dma>))
        ensures
            parts.0 == self.qpair,
            parts.1 == self.buffers,
    {
        (self.qpair, self.buffers)
    }
}

impl KeyStore for DeviceKeys {
    open spec fn keys(&self) -> Seq<u64> {
        Seq::new(self.len as nat, |i: int| self.key_at(self.first + i))
    }

    open spec fn usable(&self) -> bool {
        self.inv()
    }

    open spec fn surroundings(&self) -> Seq<u64> {
        seq![self.first as u64, self.len as u64, self.slots() as u64] + Seq::new(
            self.qpair.image@.len(),
            |a: int|
                if self.first <= a < self.first + self.len {
                    0
                } else {
                    self.key_at(a)
                },
        )
    }

    fn size(&self) -> (n: usize) {
        self.len
    }

    fn load(&mut self, i: usize) -> (key: u64) {
        let key = self.get(i);
        proof {
            lemma_same_view(old(self), self);
        }
        key
    }

    fn store(&mut self, i: usize, key: u64) {
        self.put(i, key);
        proof {
            lemma_put_view(old(self), self, i as int, key);
        }
    }

    /// Switches fetching ahead on or off.  Nothing else of the window changes:
    /// it holds the pages it held, and shows the device as before.
    fn read_ahead(&mut self, on: bool)
        ensures
            final(self).ahead == on,
            final(self).qpair == old(self).qpair,
            final(self).buffers == old(self).buffers,
            final(self).pages == old(self).pages,
            final(self).dirty == old(self).dirty,
            final(self).first == old(self).first,
            final(self).len == old(self).len,
    {
        self.ahead = on;
        proof {
            assert forall|t: int| 0 <= t < self.slots() implies #[trigger] self.slot_ok(t) by {
                assert(old(self).slot_ok(t));
            }
            assert(self.keys() =~= old(self).keys());
            assert(self.surroundings() =~= old(self).surroundings());
        }
    }

    fn sort_small(&mut self, lo: usize, hi: usize) {
        let mut piece: Vec<u64> = Vec::new();
        let mut i: usize = lo;
        while i < hi
            invariant
                lo <= i <= hi <= self.len,
                self.inv(),
                self.shows_same(old(self)),
                piece@ == old(self).keys().subrange(lo as int, i as int),
            decreases hi - i,
        {
            let ghost before = *self;
            let key = self.get(i);
            piece.push(key);
            proof {
                assert forall|a: int|
                    0 <= a < self.qpair.image@.len() implies #[trigger] self.key_at(a) == old(self).key_at(a) by {
                    assert(before.key_at(a) == old(self).key_at(a));
                }
                assert(piece@ =~= old(self).keys().subrange(lo as int, i + 1));
            }
            i += 1;
        }
        let ghost read = *self;
        insertion_sort(piece.as_mut_slice());
        let ghost ordered = piece@;
        let mut i: usize = lo;
        while i < hi
            invariant
                lo <= i <= hi <= self.len,
                self.inv(),
                self.same_range(old(self)),
                piece@ == ordered,
                ordered.len() == hi - lo,
                forall|b: int|
                    0 <= b < self.qpair.image@.len() && !(self.first + lo <= b < self.first + i)
                        ==> #[trigger] self.key_at(b) == old(self).key_at(b),
                forall|b: int|
                    self.first + lo <= b < self.first + i ==> #[trigger] self.key_at(b)
                        == ordered[b - self.first - lo],
            decreases hi - i,
        {
            let ghost before = *self;
            self.put(i, piece[i - lo]);
            proof {
                assert forall|b: int|
                    0 <= b < self.qpair.image@.len() && !(self.first + lo <= b < self.first + i
                        + 1) implies #[trigger] self.key_at(b) == old(self).key_at(b) by {
                    assert(before.key_at(b) == old(self).key_at(b));
                }
                assert forall|b: int|
                    self.first + lo <= b < self.first + i + 1 implies #[trigger] self.key_at(b)
                    == ordered[b - self.first - lo] by {
                    if b < self.first + i {
                        assert(before.key_at(b) == ordered[b - self.first - lo]);
                    }
                }
            }
            i += 1;
        }
        proof {
            let n = old(self).keys().len() as int;
            assert(self.keys().subrange(0, lo as int) =~= old(self).keys().subrange(0, lo as int));
            assert(self.keys().subrange(hi as int, n) =~= old(self).keys().subrange(hi as int, n));
            assert(self.keys().subrange(lo as int, hi as int) =~= ordered);
            assert(self.surroundings() =~= old(self).surroundings());
        }
    }
}

/// The page behind a page goes to another buffer, if there are several.
proof fn lemma_next_slot(page: int, slots: int)
    requires
        0 <= page,
        slots >= 2,
    ensures
        (page + 1) % slots != page % slots,
{
    vstd::arithmetic::div_mod::lemma_fundamental_div_mod(page, slots);
    vstd::arithmetic::div_mod::lemma_fundamental_div_mod(page + 1, slots);
    let q0 = page / slots;
    let q1 = (page + 1) / slots;
    if (page + 1) % slots == page % slots {
        assert(slots * q1 - slots * q0 == 1);
        assert(slots * (q1 - q0) == 1) by (nonlinear_arith)
            requires
                slots * q1 - slots * q0 == 1,
        ;
        assert(false) by (nonlinear_arith)
            requires
                slots * (q1 - q0) == 1,
                slots >= 2,
        ;
    }
}

/// Windows that show the same keys of the same range have the same view.
pub proof fn lemma_same_view(before: &DeviceKeys, after: &DeviceKeys)
    requires
        after.shows_same(before),
        before.first + before.len <= before.qpair.image@.len(),
    ensures
        after.keys() == before.keys(),
        after.surroundings() == before.surroundings(),
        after.shown() == before.shown(),
{
    assert(after.keys() =~= before.keys());
    assert(after.surroundings() =~= before.surroundings());
    assert(after.shown() =~= before.shown());
}

/// Putting a key changes the view at its place and nowhere else.
pub proof fn lemma_put_view(before: &DeviceKeys, after: &DeviceKeys, i: int, key: u64)
    requires
        after.same_range(before),
        0 <= i < before.len,
        before.first + before.len <= before.qpair.image@.len(),
        forall|b: int|
            0 <= b < before.qpair.image@.len() ==> #[trigger] after.key_at(b) == if b
                == before.first + i {
                key
            } else {
                before.key_at(b)
            },
    ensures
        after.keys() == before.keys().update(i, key),
        after.surroundings() == before.surroundings(),
{
    assert(after.keys() =~= before.keys().update(i, key));
    assert(after.surroundings() =~= before.surroundings());
}

} // verus!
