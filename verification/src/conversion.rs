//! Keys at the boundary of a byte buffer.  A device page is a run of bytes;
//! the keys in it are little-endian and are decoded and encoded explicitly.

use vstd::bytes::{
    lemma_auto_spec_u64_to_from_le_bytes, spec_u64_from_le_bytes, spec_u64_to_le_bytes,
    u64_from_le_bytes, u64_to_le_bytes,
};
use vstd::prelude::*;
use vstd::slice::slice_subrange;

verus! {

/// The keys that `bytes` encode, eight bytes to a key.
pub open spec fn decoded(bytes: Seq<u8>) -> Seq<u64> {
    Seq::new(bytes.len() / 8, |i: int| spec_u64_from_le_bytes(bytes.subrange(8 * i, 8 * i + 8)))
}

/// `bytes` encode `keys`, eight bytes to a key.
pub open spec fn encodes(bytes: Seq<u8>, keys: Seq<u64>) -> bool {
    &&& bytes.len() == 8 * keys.len()
    &&& forall|i: int|
        0 <= i < keys.len() ==> bytes.subrange(8 * i, 8 * i + 8) == spec_u64_to_le_bytes(
            #[trigger] keys[i],
        )
}

/// The key that the eight bytes of `bytes` encode.
pub fn u8_to_u64(bytes: &[u8]) -> (key: u64)
    requires
        bytes@.len() == 8,
    ensures
        key == spec_u64_from_le_bytes(bytes@),
{
    u64_from_le_bytes(bytes)
}

/// The bytes that encode the keys of `arr`.
pub fn u64_to_u8_slice(arr: &[u64]) -> (bytes: Vec<u8>)
    requires
        arr@.len() * 8 <= usize::MAX,
    ensures
        encodes(bytes@, arr@),
{
    let mut bytes: Vec<u8> = Vec::new();
    let mut i: usize = 0;
    while i < arr.len()
        invariant
            i <= arr@.len(),
            bytes@.len() == 8 * i,
            forall|j: int|
                0 <= j < i ==> bytes@.subrange(8 * j, 8 * j + 8) == spec_u64_to_le_bytes(
                    #[trigger] arr@[j],
                ),
        decreases arr@.len() - i,
    {
        let ghost before = bytes@;
        let piece = u64_to_le_bytes(arr[i]);
        let mut k: usize = 0;
        while k < 8
            invariant
                k <= 8,
                piece@.len() == 8,
                bytes@.len() == before.len() + k,
                bytes@.subrange(0, before.len() as int) == before,
                forall|m: int| 0 <= m < k ==> bytes@[before.len() + m] == piece@[m],
            decreases 8 - k,
        {
            let ghost grown = bytes@;
            bytes.push(piece[k]);
            proof {
                assert(bytes@.subrange(0, before.len() as int) =~= grown.subrange(
                    0,
                    before.len() as int,
                ));
            }
            k += 1;
        }
        proof {
            assert(bytes@.subrange(8 * i, 8 * i + 8) =~= piece@);
            assert forall|j: int| 0 <= j < i implies bytes@.subrange(8 * j, 8 * j + 8)
                == spec_u64_to_le_bytes(#[trigger] arr@[j]) by {
                assert(bytes@.subrange(8 * j, 8 * j + 8) =~= before.subrange(8 * j, 8 * j + 8));
            }
        }
        i += 1;
    }
    bytes
}

/// The keys that `bytes` encode.  The number of bytes is a multiple of eight.
pub fn u8_to_u64_slice(bytes: &[u8]) -> (keys: Vec<u64>)
    requires
        bytes@.len() % 8 == 0,
    ensures
        keys@ == decoded(bytes@),
{
    let len = bytes.len();
    let count = len / 8;
    let mut keys: Vec<u64> = Vec::new();
    let mut i: usize = 0;
    while i < count
        invariant
            i <= count,
            len == bytes@.len(),
            count == bytes@.len() / 8,
            bytes@.len() % 8 == 0,
            keys@.len() == i,
            forall|j: int| 0 <= j < i ==> keys@[j] == decoded(bytes@)[j],
        decreases count - i,
    {
        let piece = slice_subrange(bytes, 8 * i, 8 * i + 8);
        let key = u8_to_u64(piece);
        keys.push(key);
        i += 1;
    }
    proof {
        assert(keys@ =~= decoded(bytes@));
    }
    keys
}

/// Decoding what was encoded gives the keys back.
pub proof fn lemma_decode_encoded(bytes: Seq<u8>, keys: Seq<u64>)
    requires
        encodes(bytes, keys),
    ensures
        decoded(bytes) == keys,
{
    lemma_auto_spec_u64_to_from_le_bytes();
    assert forall|i: int| 0 <= i < keys.len() implies decoded(bytes)[i] == keys[i] by {
        assert(bytes.subrange(8 * i, 8 * i + 8) == spec_u64_to_le_bytes(keys[i]));
    }
    assert(decoded(bytes) =~= keys);
}

} // verus!
