//! Erasing buffers that have held secret material.

use vstd::prelude::*;
use zeroize::Zeroize;

verus! {

/// Erases an array of words.
///
/// Calls `zeroize::Zeroize::zeroize` on the array. The contract claims that
/// every element is zero afterwards and that the call never fails. That the
/// writes cannot be optimised away, which is why this function is called,
/// is documented by its crate and stated by no contract here.
#[verifier::external_body]
pub(crate) fn wipe_words<const N: usize>(words: &mut [u32; N])
    ensures
        forall|j: int| 0 <= j < N ==> final(words)@[j] == 0u32,
    opens_invariants none
    no_unwind
{
    words.zeroize();
}

/// Erases a byte buffer.
///
/// Calls `zeroize::Zeroize::zeroize` on the slice. The contract claims that
/// the length is kept, that every byte is zero afterwards and that the call
/// never fails: the function fails only on a slice of more than
/// `isize::MAX` elements, which no slice is. That the writes cannot be
/// optimised away is documented by its crate and stated by no contract
/// here.
#[verifier::external_body]
pub(crate) fn wipe_bytes(buf: &mut [u8])
    ensures
        final(buf)@.len() == old(buf)@.len(),
        forall|j: int| 0 <= j < final(buf)@.len() ==> final(buf)@[j] == 0u8,
    opens_invariants none
    no_unwind
{
    buf.zeroize();
}

} // verus!
