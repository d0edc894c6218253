//! The permutation state: one or more lanes of twelve words, with byte
//! access in little-endian order and erasure on drop.

use crate::bytes::{
    be_bytes, copy_into, lane_bytes, lane_words, le_bytes, lemma_bytes_of_lane_words,
    lemma_swapped_bytes, lemma_word_from_its_bytes, splice, swapped, word_byte, word_from_bytes,
    xor_at,
};
use crate::permutation::zero_state;
use crate::wipe::{wipe_bytes, wipe_words};
use rawbytes::RawBytes;
use vstd::prelude::*;

pub mod batched;
pub mod scalar;

verus! {

/// Xoodoo state of `N` independent lanes, permuted with `R` rounds.
///
/// Typical round counts are 6 and 12; typical lane counts are 1 and the
/// width of the machine's vector unit in words.
#[derive(Debug)]
pub struct Xoodoo<const N: usize, const R: usize> {
    st: [[u32; 12]; N],
}

impl<const N: usize, const R: usize> View for Xoodoo<N, R> {
    type V = Seq<Seq<u32>>;

    /// The lanes, each as its twelve words.
    closed spec fn view(&self) -> Seq<Seq<u32>> {
        Seq::new(N as nat, |i: int| self.st@[i]@)
    }
}

/// A word whose four bytes differ, laid beside a state to tell the host's
/// byte order from its bytes in memory.
const ORDER_MARK: u32 = 0x0302_0100;

/// The bytes of thirteen words as they lie in memory.
///
/// Calls `rawbytes::RawBytes::bytes_view`. The contract claims what holds
/// on every host: the words follow each other in order, four bytes each,
/// and within every word the bytes stand in one and the same order, either
/// the least significant or the most significant one first.
#[verifier::external_body]
fn native_bytes(words: &[u32; 13]) -> (raw: [u8; 52])
    ensures
        raw@ == le_bytes(words@) || raw@ == be_bytes(words@),
{
    let mut raw = [0u8; 52];
    raw.copy_from_slice(RawBytes::bytes_view(words));
    raw
}

/// The thirteen words whose bytes in memory are `raw`.
///
/// Calls `rawbytes::RawBytes::bytes_view_mut` and writes `raw` through it.
/// The contract claims what holds on every host: `raw` is the bytes of the
/// words in order, four bytes each, within every word in one and the same
/// order, either the least significant or the most significant one first.
#[verifier::external_body]
fn native_words(raw: &[u8; 52]) -> (words: [u32; 13])
    ensures
        le_bytes(words@) == raw@ || be_bytes(words@) == raw@,
{
    let mut words = [0u32; 13];
    RawBytes::bytes_view_mut(&mut words).copy_from_slice(raw);
    words
}

/// The bytes of the order mark.
proof fn lemma_order_mark()
    ensures
        word_byte(ORDER_MARK, 0) == 0,
        word_byte(ORDER_MARK, 1) == 1,
        word_byte(ORDER_MARK, 2) == 2,
        word_byte(ORDER_MARK, 3) == 3,
        word_from_bytes(0, 1, 2, 3) == ORDER_MARK,
{
    assert(((0x0302_0100u32 >> 0u32) & 0xff) as u8 == 0) by (bit_vector);
    assert(((0x0302_0100u32 >> 8u32) & 0xff) as u8 == 1) by (bit_vector);
    assert(((0x0302_0100u32 >> 16u32) & 0xff) as u8 == 2) by (bit_vector);
    assert(((0x0302_0100u32 >> 24u32) & 0xff) as u8 == 3) by (bit_vector);
    assert((0u8 as u32) | ((1u8 as u32) << 8) | ((2u8 as u32) << 16) | ((3u8 as u32) << 24)
        == 0x0302_0100u32) by (bit_vector);
}

/// `w` with the order of its four bytes reversed.
fn swap_bytes(w: u32) -> (r: u32)
    ensures
        r == swapped(w),
{
    (w << 24) | ((w & 0xff00) << 8) | ((w >> 8) & 0xff00) | (w >> 24)
}

/// The little-endian bytes of twelve words, whatever the host's byte order.
///
/// The words are viewed as bytes in memory together with the order mark;
/// the bytes of the mark show in which order the host keeps the bytes of a
/// word, and the bytes of every word are read in that order.
fn lane_to_bytes(words: &[u32; 12]) -> (block: [u8; 48])
    ensures
        block@ == lane_bytes(words@),
{
    let mut marked: [u32; 13] = [
        words[0], words[1], words[2], words[3], words[4], words[5], words[6], words[7], words[8],
        words[9], words[10], words[11], ORDER_MARK,
    ];
    let mut raw = native_bytes(&marked);
    proof {
        lemma_order_mark();
        assert(le_bytes(marked@)[48] == word_byte(marked@[12], 0));
        assert(be_bytes(marked@)[48] == word_byte(marked@[12], 3));
    }
    let little = raw[48] == 0;
    let mut block = [0u8; 48];
    let mut j: usize = 0;
    while j < 12
        invariant
            j <= 12,
            forall|k: int| 0 <= k < 12 ==> marked@[k] == words@[k],
            little ==> raw@ == le_bytes(marked@),
            !little ==> raw@ == be_bytes(marked@),
            forall|p: int| 0 <= p < 4 * j ==> block@[p] == word_byte(words@[p / 4], p % 4),
        decreases 12 - j,
    {
        let at = 4 * j;
        if little {
            block[at] = raw[at];
            block[at + 1] = raw[at + 1];
            block[at + 2] = raw[at + 2];
            block[at + 3] = raw[at + 3];
        } else {
            block[at] = raw[at + 3];
            block[at + 1] = raw[at + 2];
            block[at + 2] = raw[at + 1];
            block[at + 3] = raw[at];
        }
        j += 1;
    }
    assert(block@ =~= lane_bytes(words@));
    wipe_words(&mut marked);
    wipe_bytes(&mut raw);
    block
}

/// The twelve words whose little-endian bytes are `block`, whatever the
/// host's byte order.
///
/// The bytes are written into memory together with the bytes of the order
/// mark and read as words; the value read for the mark shows in which order
/// the host keeps the bytes of a word, and the bytes of every word are
/// reversed where that is the other order.
fn lane_from_bytes(block: &[u8; 48]) -> (words: [u32; 12])
    ensures
        words@ == lane_words(block@),
{
    let mut raw = [0u8; 52];
    copy_into(&mut raw, 0, block.as_slice());
    raw[48] = 0;
    raw[49] = 1;
    raw[50] = 2;
    raw[51] = 3;
    let mut marked = native_words(&raw);
    proof {
        lemma_order_mark();
        lemma_word_from_its_bytes(marked@[12]);
        assert(le_bytes(marked@)[48] == word_byte(marked@[12], 0));
        assert(le_bytes(marked@)[49] == word_byte(marked@[12], 1));
        assert(le_bytes(marked@)[50] == word_byte(marked@[12], 2));
        assert(le_bytes(marked@)[51] == word_byte(marked@[12], 3));
        assert(be_bytes(marked@)[48] == word_byte(marked@[12], 3));
    }
    let little = marked[12] == ORDER_MARK;
    let mut words = [0u32; 12];
    let mut j: usize = 0;
    while j < 12
        invariant
            j <= 12,
            forall|p: int| 0 <= p < 48 ==> raw@[p] == block@[p],
            little ==> le_bytes(marked@) == raw@,
            !little ==> be_bytes(marked@) == raw@,
            forall|k: int| 0 <= k < j ==> words@[k] == lane_words(block@)[k],
        decreases 12 - j,
    {
        let w = marked[j];
        proof {
            lemma_word_from_its_bytes(w);
            lemma_swapped_bytes(w);
            lemma_word_from_its_bytes(swapped(w));
            let at = 4 * j as int;
            assert(le_bytes(marked@)[at] == word_byte(w, 0));
            assert(le_bytes(marked@)[at + 1] == word_byte(w, 1));
            assert(le_bytes(marked@)[at + 2] == word_byte(w, 2));
            assert(le_bytes(marked@)[at + 3] == word_byte(w, 3));
            assert(be_bytes(marked@)[at] == word_byte(w, 3));
            assert(be_bytes(marked@)[at + 1] == word_byte(w, 2));
            assert(be_bytes(marked@)[at + 2] == word_byte(w, 1));
            assert(be_bytes(marked@)[at + 3] == word_byte(w, 0));
        }
        if little {
            words[j] = w;
        } else {
            words[j] = swap_bytes(w);
        }
        j += 1;
    }
    assert(words@ =~= lane_words(block@));
    wipe_words(&mut marked);
    wipe_bytes(&mut raw);
    words
}

impl<const N: usize, const R: usize> Default for Xoodoo<N, R> {
    /// The state with every word zero.
    fn default() -> (r: Self)
        ensures
            r@.len() == N,
            forall|i: int| 0 <= i < N ==> #[trigger] r@[i] == zero_state(),
    {
        let r = Xoodoo { st: [[0u32; 12]; N] };
        assert forall|i: int| 0 <= i < N implies #[trigger] r@[i] == zero_state() by {
            assert(r@[i] =~= zero_state());
        }
        r
    }
}

impl<const N: usize, const R: usize> Clone for Xoodoo<N, R> {
    fn clone(&self) -> (r: Self)
        ensures
            r@ == self@,
    {
        let r = Xoodoo { st: self.st };
        assert(r@ =~= self@);
        r
    }
}

impl<const N: usize, const R: usize> Xoodoo<N, R> {
    /// A state has `N` lanes of twelve words.
    pub proof fn lemma_shape(&self)
        ensures
            self@.len() == N,
            forall|i: int| 0 <= i < N ==> (#[trigger] self@[i]).len() == 12,
    {
    }

    /// Overwrites every word of every lane with zero.
    pub fn zeroize(&mut self)
        ensures
            final(self)@.len() == N,
            forall|i: int| 0 <= i < N ==> #[trigger] final(self)@[i] == zero_state(),
        opens_invariants none
        no_unwind
    {
        let mut i: usize = 0;
        while i < N
            invariant
                i <= N,
                forall|k: int| 0 <= k < i ==> #[trigger] self@[k] == zero_state(),
            decreases N - i,
        {
            let ghost before = *self;
            wipe_words(&mut self.st[i]);
            assert(self@[i as int] =~= zero_state());
            assert(forall|k: int| 0 <= k < N && k != i ==> self.st@[k] == before.st@[k]);
            assert(forall|k: int| 0 <= k < i ==> #[trigger] self@[k] == before@[k]);
            i += 1;
        }
    }

    /// XORs `bytes` into the byte view of lane `i`, from byte `offset` on.
    pub fn add_bytes(&mut self, i: usize, bytes: &[u8], offset: usize)
        requires
            i < N,
            offset + bytes@.len() <= 48,
        ensures
            final(self)@ == old(self)@.update(
                i as int,
                lane_words(xor_at(lane_bytes(old(self)@[i as int]), bytes@, offset as int)),
            ),
            lane_bytes(final(self)@[i as int]) == xor_at(
                lane_bytes(old(self)@[i as int]),
                bytes@,
                offset as int,
            ),
    {
        let mut block = lane_to_bytes(&self.st[i]);
        let ghost before = block@;
        let mut j: usize = 0;
        while j < bytes.len()
            invariant
                j <= bytes@.len(),
                offset + bytes@.len() <= 48,
                before.len() == 48,
                block@ == xor_at(before, bytes@.take(j as int), offset as int),
            decreases bytes@.len() - j,
        {
            block[offset + j] = block[offset + j] ^ bytes[j];
            j += 1;
            assert(block@ =~= xor_at(before, bytes@.take(j as int), offset as int));
        }
        assert(bytes@.take(j as int) =~= bytes@);
        self.st[i] = lane_from_bytes(&block);
        proof {
            lemma_bytes_of_lane_words(block@);
            assert(self@ =~= old(self)@.update(i as int, lane_words(block@)));
        }
        wipe_bytes(&mut block);
    }

    /// Copies bytes `0 .. len` of lane `i` into `out[start .. start + len]`.
    pub(crate) fn extract_into(&self, i: usize, out: &mut [u8], start: usize, len: usize)
        requires
            i < N,
            len <= 48,
            start + len <= old(out)@.len(),
        ensures
            final(out)@ == splice(old(out)@, start as int, lane_bytes(self@[i as int]).take(len as int)),
    {
        let mut block = lane_to_bytes(&self.st[i]);
        let ghost src = block@;
        let total = out.len();
        let mut j: usize = 0;
        while j < len
            invariant
                j <= len <= 48,
                start + len <= total,
                out@.len() == total,
                out@.len() == old(out)@.len(),
                src.len() == 48,
                block@ == src,
                out@ == splice(old(out)@, start as int, src.take(j as int)),
            decreases len - j,
        {
            out[start + j] = block[j];
            j += 1;
            assert(out@ =~= splice(old(out)@, start as int, src.take(j as int)));
        }
        wipe_bytes(&mut block);
    }

    /// Copies the first `out.len()` bytes of lane `i` into `out`.
    pub fn extract_bytes(&mut self, i: usize, out: &mut [u8])
        requires
            i < N,
            old(out)@.len() <= 48,
        ensures
            final(self)@ == old(self)@,
            final(out)@ == lane_bytes(old(self)@[i as int]).take(old(out)@.len() as int),
    {
        let len = out.len();
        self.extract_into(i, out, 0, len);
        assert(out@ =~= lane_bytes(self@[i as int]).take(len as int));
    }
}

impl<const N: usize, const R: usize> Drop for Xoodoo<N, R> {
    /// A state that goes out of scope is erased first.
    fn drop(&mut self)
        ensures
            forall|i: int| 0 <= i < N ==> #[trigger] final(self)@[i] == zero_state(),
        opens_invariants none
        no_unwind
    {
        self.zeroize();
    }
}

} // verus!
