//! The block device as the sorter sees it: a flat array of keys in logical
//! blocks, reached through a queue pair, and page buffers to stage keys in.

use crate::config::{ELEMENTS_PER_CHUNK, ELEMENTS_PER_LBA};
use vstd::prelude::*;

verus! {

/// Number of requests that a queue pair holds at most.
pub const QUEUE_LENGTH: usize = 1024;

/// A page buffer: room for a fixed number of keys, which the device reads into
/// and writes from.
pub struct Dma {
    pub keys: Vec<u64>,
}

/// A submission and completion queue on one device, with the keys that the
/// device holds.
pub struct QueuePair {
    pub image: Vec<u64>,
    pub in_flight: usize,
}

/// Number of requests that a transfer of `count` keys is split into.
pub open spec fn requests_for(count: int) -> int {
    (count + 1023) / 1024
}

/// `after` is `before` with the `count` keys from `at` on replaced by those of
/// `src` from `from` on.
pub open spec fn copied_into(
    before: Seq<u64>,
    after: Seq<u64>,
    at: int,
    src: Seq<u64>,
    from: int,
    count: int,
) -> bool {
    &&& after.len() == before.len()
    &&& forall|p: int| 0 <= p < before.len() && !(at <= p < at + count) ==> after[p] == before[p]
    &&& forall|p: int| at <= p < at + count ==> after[p] == src[p - at + from]
}

impl Dma {
    /// A buffer with room for `count` keys, all zero.
    pub fn new(count: usize) -> (buffer: Dma)
        ensures
            buffer.keys@.len() == count,
            forall|i: int| 0 <= i < count ==> buffer.keys@[i] == 0,
    {
        let mut keys: Vec<u64> = Vec::new();
        let mut i: usize = 0;
        while i < count
            invariant
                i <= count,
                keys@.len() == i,
                forall|j: int| 0 <= j < i ==> keys@[j] == 0,
            decreases count - i,
        {
            keys.push(0);
            i += 1;
        }
        Dma { keys }
    }

    /// Number of keys that the buffer has room for.
    pub fn size(&self) -> (count: usize)
        ensures
            count == self.keys@.len(),
    {
        self.keys.len()
    }
}

impl QueuePair {
    /// The device holds whole logical blocks, and the queue is not over full.
    pub open spec fn wf(&self) -> bool {
        &&& self.image@.len() % 64 == 0
        &&& self.in_flight <= QUEUE_LENGTH
    }

    /// A queue pair on a device that holds `image`, whose length is a whole
    /// number of logical blocks.
    pub fn new(image: Vec<u64>) -> (qpair: QueuePair)
        requires
            image@.len() % 64 == 0,
        ensures
            qpair.wf(),
            qpair.image@ == image@,
            qpair.in_flight == 0,
    {
        QueuePair { image, in_flight: 0 }
    }

    /// Whether the queue has no room for another request.
    pub fn is_full(&self) -> (full: bool)
        ensures
            full == (self.in_flight >= QUEUE_LENGTH),
    {
        self.in_flight >= QUEUE_LENGTH
    }

    /// Submits the transfer of `count` keys between `buffer`, from `from` on,
    /// and the device, from logical block `lba` on: to the device if `write`
    /// holds, else from it.  Returns the number of requests that the transfer
    /// was split into, which are in flight until they are completed.
    pub fn submit_io(&mut self, buffer: &mut Dma, from: usize, count: usize, lba: usize, write: bool) -> (requests:
        usize)
        requires
            old(self).wf(),
            from + count <= old(buffer).keys@.len(),
            count % 64 == 0,
            lba * 64 + count <= old(self).image@.len(),
            old(self).in_flight + requests_for(count as int) <= QUEUE_LENGTH,
        ensures
            final(self).wf(),
            requests == requests_for(count as int),
            final(self).in_flight == old(self).in_flight + requests,
            write ==> final(buffer).keys@ == old(buffer).keys@ && copied_into(
                old(self).image@,
                final(self).image@,
                lba * 64,
                old(buffer).keys@,
                from as int,
                count as int,
            ),
            !write ==> final(self).image@ == old(self).image@ && copied_into(
                old(buffer).keys@,
                final(buffer).keys@,
                from as int,
                old(self).image@,
                lba * 64,
                count as int,
            ),
    {
        let image_len = self.image.len();
        let buffer_len = buffer.keys.len();
        let base = lba * ELEMENTS_PER_LBA;
        let mut j: usize = 0;
        if write {
            while j < count
                invariant
                    j <= count,
                    base == lba * 64,
                    from + count <= buffer_len,
                    base + count <= image_len,
                    buffer_len == buffer.keys@.len(),
                    image_len == self.image@.len(),
                    buffer.keys@ == old(buffer).keys@,
                    self.in_flight == old(self).in_flight,
                    copied_into(
                        old(self).image@,
                        self.image@,
                        base as int,
                        old(buffer).keys@,
                        from as int,
                        j as int,
                    ),
                decreases count - j,
            {
                let key = buffer.keys[from + j];
                self.image[base + j] = key;
                j += 1;
            }
        } else {
            while j < count
                invariant
                    j <= count,
                    base == lba * 64,
                    from + count <= buffer_len,
                    base + count <= image_len,
                    buffer_len == buffer.keys@.len(),
                    image_len == self.image@.len(),
                    self.image@ == old(self).image@,
                    self.in_flight == old(self).in_flight,
                    copied_into(
                        old(buffer).keys@,
                        buffer.keys@,
                        from as int,
                        old(self).image@,
                        base as int,
                        j as int,
                    ),
                decreases count - j,
            {
                let key = self.image[base + j];
                buffer.keys[from + j] = key;
                j += 1;
            }
        }
        let requests = (count + (ELEMENTS_PER_CHUNK - 1)) / ELEMENTS_PER_CHUNK;
        self.in_flight = self.in_flight + requests;
        requests
    }

    /// Waits until `count` of the requests in flight have completed.
    pub fn complete_io(&mut self, count: usize)
        requires
            old(self).wf(),
            count <= old(self).in_flight,
        ensures
            final(self).wf(),
            final(self).image@ == old(self).image@,
            final(self).in_flight == old(self).in_flight - count,
    {
        self.in_flight = self.in_flight - count;
    }
}

} // verus!
