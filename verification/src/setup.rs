//! Preparation of the device: writing keys to it and clearing it.

use crate::config::{ELEMENTS_PER_CHUNK, ELEMENTS_PER_LBA, LBA_PER_CHUNK};
use crate::device::{Dma, QueuePair};
use crate::sort::{lbas_for, read_write_elements};
use vstd::prelude::*;

verus! {

/// The device holds the keys of `arr` at its front, and zeros behind them up
/// to the end of their last logical block.
pub open spec fn holds_array(image: Seq<u64>, arr: Seq<u64>) -> bool {
    &&& lbas_for(0, arr.len() as int) * 64 <= image.len()
    &&& forall|p: int| 0 <= p < arr.len() ==> image[p] == arr[p]
    &&& forall|p: int| arr.len() <= p < lbas_for(0, arr.len() as int) * 64 ==> image[p] == 0
}

/// Writes the keys of `arr` to the front of the device, one page at a time.
/// The last logical block is filled up with zeros.
pub fn setup_array(arr: &[u64], qpair: &mut QueuePair)
    requires
        old(qpair).wf(),
        old(qpair).in_flight == 0,
        lbas_for(0, arr@.len() as int) * 64 <= old(qpair).image@.len(),
    ensures
        final(qpair).wf(),
        final(qpair).in_flight == 0,
        final(qpair).image@.len() == old(qpair).image@.len(),
        holds_array(final(qpair).image@, arr@),
        forall|p: int|
            lbas_for(0, arr@.len() as int) * 64 <= p < old(qpair).image@.len() ==> final(qpair).image@[p] == old(qpair).image@[p],
{
    let ghost image0 = qpair.image@;
    let image_len = qpair.image.len();
    let len = arr.len();
    let mut buffer = Dma::new(ELEMENTS_PER_CHUNK);
    let mut written: usize = 0;
    while written < len
        invariant
            written <= len,
            written % 1024 == 0 || written == len,
            len == arr@.len(),
            buffer.keys@.len() == 1024,
            image_len == image0.len(),
            lbas_for(0, len as int) * 64 <= image_len,
            qpair.wf(),
            qpair.in_flight == 0,
            qpair.image@.len() == image_len,
            forall|p: int| 0 <= p < written ==> qpair.image@[p] == arr@[p],
            forall|p: int|
                len <= p < lbas_for(0, written as int) * 64 ==> qpair.image@[p] == 0,
            forall|p: int|
                lbas_for(0, written as int) * 64 <= p < image_len ==> qpair.image@[p] == image0[p],
        decreases len - written,
    {
        let piece = if len - written <= ELEMENTS_PER_CHUNK {
            len - written
        } else {
            ELEMENTS_PER_CHUNK
        };
        let mut j: usize = 0;
        while j < ELEMENTS_PER_CHUNK
            invariant
                j <= 1024,
                piece <= 1024,
                written + piece <= len,
                len == arr@.len(),
                buffer.keys@.len() == 1024,
                forall|p: int|
                    0 <= p < j ==> buffer.keys@[p] == if p < piece {
                        arr@[written + p]
                    } else {
                        0
                    },
            decreases 1024 - j,
        {
            let key = if j < piece {
                arr[written + j]
            } else {
                0
            };
            buffer.keys[j] = key;
            j += 1;
        }
        let ghost before = qpair.image@;
        let ghost blocks = lbas_for(0, piece as int);
        read_write_elements(qpair, &mut buffer, written / ELEMENTS_PER_LBA, 0, piece, true);
        proof {
            let after = qpair.image@;
            assert(lbas_for(0, written + piece) == written / 64 + blocks);
            assert forall|p: int| 0 <= p < written + piece implies after[p] == arr@[p] by {
                if p >= written {
                    assert(after[p] == buffer.keys@[p - written + 0]);
                }
            }
            assert forall|p: int| len <= p < lbas_for(0, written + piece) * 64 implies after[p]
                == 0 by {
                if p >= written {
                    assert(after[p] == buffer.keys@[p - written + 0]);
                }
            }
        }
        written = written + piece;
    }
}

/// Writes zeros to the first `chunks` chunks of the device.  A chunk is
/// submitted as soon as the chunk before it has been waited for.
pub fn clear(chunks: usize, qpair: &mut QueuePair)
    requires
        old(qpair).wf(),
        old(qpair).in_flight == 0,
        chunks * 1024 <= old(qpair).image@.len(),
    ensures
        final(qpair).wf(),
        final(qpair).in_flight == 0,
        final(qpair).image@.len() == old(qpair).image@.len(),
        forall|p: int| 0 <= p < chunks * 1024 ==> final(qpair).image@[p] == 0,
        forall|p: int|
            chunks * 1024 <= p < old(qpair).image@.len() ==> final(qpair).image@[p] == old(qpair).image@[p],
{
    let ghost image0 = qpair.image@;
    let image_len = qpair.image.len();
    let mut buffer = Dma::new(ELEMENTS_PER_CHUNK);
    let mut i: usize = 0;
    while i < chunks
        invariant
            i <= chunks,
            chunks * 1024 <= image_len,
            image_len == image0.len(),
            buffer.keys@.len() == 1024,
            forall|p: int| 0 <= p < 1024 ==> buffer.keys@[p] == 0,
            qpair.wf(),
            qpair.image@.len() == image_len,
            i == 0 ==> qpair.in_flight == 0,
            i > 0 ==> qpair.in_flight == 1,
            forall|p: int| 0 <= p < i * 1024 ==> qpair.image@[p] == 0,
            forall|p: int| i * 1024 <= p < image_len ==> qpair.image@[p] == image0[p],
        decreases chunks - i,
    {
        let ghost before = qpair.image@;
        let requests = qpair.submit_io(&mut buffer, 0, ELEMENTS_PER_CHUNK, i * LBA_PER_CHUNK, true);
        if i != 0 {
            qpair.complete_io(1);
        }
        proof {
            let after = qpair.image@;
            assert forall|p: int| 0 <= p < (i + 1) * 1024 implies after[p] == 0 by {
                if p >= i * 1024 {
                    assert(after[p] == buffer.keys@[p - i * LBA_PER_CHUNK * 64 + 0]);
                } else {
                    assert(after[p] == before[p]);
                }
            }
        }
        i += 1;
    }
    if chunks > 0 {
        qpair.complete_io(1);
    }
}

} // verus!
