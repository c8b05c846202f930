//! Block alignment utility for direct I/O.
//!
//! Direct I/O requires every transfer to cover a whole number of storage
//! blocks. This module rounds logical byte lengths up to the block size,
//! zero-pads write buffers to their aligned length, and truncates read
//! buffers back down to the logical length.

use vstd::prelude::*;

verus! {

/// Size in bytes of one direct-I/O block.
pub const BLOCK_SIZE: u64 = 512;

/// Smallest multiple of the block size that holds `len` bytes.
pub open spec fn align_up(len: int) -> int {
    ((len + (BLOCK_SIZE - 1)) / (BLOCK_SIZE as int)) * (BLOCK_SIZE as int)
}

/// Rounding a length up to the block size never shrinks it, adds less than
/// one full block, and always lands on a block boundary.
pub proof fn lemma_align_up_properties(len: int)
    requires
        0 <= len,
    ensures
        len <= align_up(len),
        align_up(len) < len + 512,
        align_up(len) % 512 == 0,
{
    vstd::arithmetic::div_mod::lemma_fundamental_div_mod(len + 511, 512);
}

/// A length whose aligned size is representable is itself far enough from
/// the largest representable value: the largest `u64` multiple of the block
/// size is `u64::MAX - 511`.
pub proof fn lemma_align_within_max(len: int)
    requires
        0 <= len,
        align_up(len) <= u64::MAX,
    ensures
        len + 511 <= u64::MAX,
{
    lemma_align_up_properties(len);
    if len + 511 > u64::MAX {
        let q = (len + 511) / 512;
        assert(q >= 36028797018963968) by {
            vstd::arithmetic::div_mod::lemma_div_is_ordered(
                u64::MAX + 1,
                len + 511,
                512,
            );
        }
    }
}

/// The aligned length of `len` bytes, or `None` when the aligned length
/// does not fit in a `u64`.
pub fn aligned_size(len: u64) -> (r: Option<u64>)
    ensures
        r is Some <==> len + 511 <= u64::MAX,
        r matches Some(a) ==> a == align_up(len as int),
{
    if len <= u64::MAX - 511 {
        proof {
            lemma_align_up_properties(len as int);
        }
        Some(((len + 511) / 512) * 512)
    } else {
        None
    }
}

/// Zero-pads `data` on the right up to its aligned length, as required
/// before handing a write buffer to a direct-I/O backend.
pub fn align_data_for_odirect(data: Vec<u8>) -> (r: Vec<u8>)
    requires
        data@.len() + 511 <= usize::MAX,
    ensures
        r@.len() == align_up(data@.len() as int),
        r@.subrange(0, data@.len() as int) == data@,
        forall|i: int| data@.len() <= i < r@.len() ==> r@[i] == 0u8,
{
    proof {
        lemma_align_up_properties(data@.len() as int);
    }
    let ghost old_data: Seq<u8> = data@;
    let len = data.len();
    let aligned = ((len + 511) / 512) * 512;
    let mut padded = data;
    padded.resize(aligned, 0u8);
    proof {
        assert(padded@.subrange(0, len as int) =~= old_data);
    }
    padded
}

/// Truncates an aligned read buffer down to the first `len` logical bytes.
pub fn truncate_payload(buf: Vec<u8>, len: usize) -> (r: Vec<u8>)
    requires
        len <= buf@.len(),
    ensures
        r@ == buf@.subrange(0, len as int),
{
    let mut out = buf;
    out.truncate(len);
    out
}

} // verus!
