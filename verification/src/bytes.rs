//! The byte view of a state: forty-eight bytes, each word in little-endian
//! order, and what it means to XOR data into that view.

use vstd::prelude::*;

verus! {

/// Byte `k` of `w`, counted from the least significant one, for `0 <= k < 4`.
pub open spec fn word_byte(w: u32, k: int) -> u8 {
    ((w >> ((8 * k) as u32)) & 0xff) as u8
}

/// The word whose bytes, from the least significant one, are `b0` to `b3`.
pub open spec fn word_from_bytes(b0: u8, b1: u8, b2: u8, b3: u8) -> u32 {
    (b0 as u32) | ((b1 as u32) << 8) | ((b2 as u32) << 16) | ((b3 as u32) << 24)
}

/// The bytes of `words` in word order, the least significant byte of every
/// word first.
pub open spec fn le_bytes(words: Seq<u32>) -> Seq<u8> {
    Seq::new(4 * words.len(), |p: int| word_byte(words[p / 4], p % 4))
}

/// The bytes of `words` in word order, the most significant byte of every
/// word first.
pub open spec fn be_bytes(words: Seq<u32>) -> Seq<u8> {
    Seq::new(4 * words.len(), |p: int| word_byte(words[p / 4], 3 - p % 4))
}

/// `w` with the order of its four bytes reversed.
pub open spec fn swapped(w: u32) -> u32 {
    (w << 24) | ((w & 0xff00) << 8) | ((w >> 8) & 0xff00) | (w >> 24)
}

/// The forty-eight bytes of twelve words.
pub open spec fn lane_bytes(words: Seq<u32>) -> Seq<u8> {
    Seq::new(48, |p: int| word_byte(words[p / 4], p % 4))
}

/// The twelve words of forty-eight bytes.
pub open spec fn lane_words(bytes: Seq<u8>) -> Seq<u32> {
    Seq::new(
        12,
        |j: int|
            word_from_bytes(bytes[4 * j], bytes[4 * j + 1], bytes[4 * j + 2], bytes[4 * j + 3]),
    )
}

/// Forty-eight zero bytes.
pub open spec fn zero_bytes() -> Seq<u8> {
    Seq::new(48, |p: int| 0u8)
}

/// `state` with `data` XORed into it from position `offset` on; the bytes
/// outside `offset .. offset + data.len()` are kept.
pub open spec fn xor_at(state: Seq<u8>, data: Seq<u8>, offset: int) -> Seq<u8> {
    Seq::new(
        state.len(),
        |p: int|
            if offset <= p < offset + data.len() {
                state[p] ^ data[p - offset]
            } else {
                state[p]
            },
    )
}

/// `buf` with the bytes from position `start` on replaced by `data`.
pub open spec fn splice(buf: Seq<u8>, start: int, data: Seq<u8>) -> Seq<u8> {
    Seq::new(
        buf.len(),
        |p: int|
            if start <= p < start + data.len() {
                data[p - start]
            } else {
                buf[p]
            },
    )
}

/// `a` with the bytes of `b` XORed into its first `b.len()` positions; the
/// result is as long as `a`.
pub open spec fn xor_prefix(a: Seq<u8>, b: Seq<u8>) -> Seq<u8> {
    Seq::new(
        a.len(),
        |j: int|
            if j < b.len() {
                a[j] ^ b[j]
            } else {
                a[j]
            },
    )
}

/// The smaller of two lengths.
pub open spec fn shorter(a: nat, b: nat) -> nat {
    if a < b {
        a
    } else {
        b
    }
}

/// A word is made of its four bytes.
pub proof fn lemma_word_from_its_bytes(w: u32)
    ensures
        word_from_bytes(word_byte(w, 0), word_byte(w, 1), word_byte(w, 2), word_byte(w, 3)) == w,
{
    assert((((w >> 0u32) & 0xff) as u8 as u32) | ((((w >> 8u32) & 0xff) as u8 as u32) << 8) | ((((w
        >> 16u32) & 0xff) as u8 as u32) << 16) | ((((w >> 24u32) & 0xff) as u8 as u32) << 24) == w)
        by (bit_vector);
}

/// The bytes of a word made of four bytes are those bytes.
pub proof fn lemma_bytes_of_word(b0: u8, b1: u8, b2: u8, b3: u8)
    ensures
        word_byte(word_from_bytes(b0, b1, b2, b3), 0) == b0,
        word_byte(word_from_bytes(b0, b1, b2, b3), 1) == b1,
        word_byte(word_from_bytes(b0, b1, b2, b3), 2) == b2,
        word_byte(word_from_bytes(b0, b1, b2, b3), 3) == b3,
{
    let w = word_from_bytes(b0, b1, b2, b3);
    assert(w == (b0 as u32) | ((b1 as u32) << 8) | ((b2 as u32) << 16) | ((b3 as u32) << 24));
    assert(((w >> 0u32) & 0xff) as u8 == b0) by (bit_vector)
        requires
            w == (b0 as u32) | ((b1 as u32) << 8) | ((b2 as u32) << 16) | ((b3 as u32) << 24),
    ;
    assert(((w >> 8u32) & 0xff) as u8 == b1) by (bit_vector)
        requires
            w == (b0 as u32) | ((b1 as u32) << 8) | ((b2 as u32) << 16) | ((b3 as u32) << 24),
    ;
    assert(((w >> 16u32) & 0xff) as u8 == b2) by (bit_vector)
        requires
            w == (b0 as u32) | ((b1 as u32) << 8) | ((b2 as u32) << 16) | ((b3 as u32) << 24),
    ;
    assert(((w >> 24u32) & 0xff) as u8 == b3) by (bit_vector)
        requires
            w == (b0 as u32) | ((b1 as u32) << 8) | ((b2 as u32) << 16) | ((b3 as u32) << 24),
    ;
}

/// Reversing the bytes of a word reverses the order in which they are
/// read.
pub proof fn lemma_swapped_bytes(w: u32)
    ensures
        word_byte(swapped(w), 0) == word_byte(w, 3),
        word_byte(swapped(w), 1) == word_byte(w, 2),
        word_byte(swapped(w), 2) == word_byte(w, 1),
        word_byte(swapped(w), 3) == word_byte(w, 0),
{
    let v = swapped(w);
    assert(((v >> 0u32) & 0xff) as u8 == ((w >> 24u32) & 0xff) as u8) by (bit_vector)
        requires
            v == (w << 24) | ((w & 0xff00) << 8) | ((w >> 8) & 0xff00) | (w >> 24),
    ;
    assert(((v >> 8u32) & 0xff) as u8 == ((w >> 16u32) & 0xff) as u8) by (bit_vector)
        requires
            v == (w << 24) | ((w & 0xff00) << 8) | ((w >> 8) & 0xff00) | (w >> 24),
    ;
    assert(((v >> 16u32) & 0xff) as u8 == ((w >> 8u32) & 0xff) as u8) by (bit_vector)
        requires
            v == (w << 24) | ((w & 0xff00) << 8) | ((w >> 8) & 0xff00) | (w >> 24),
    ;
    assert(((v >> 24u32) & 0xff) as u8 == ((w >> 0u32) & 0xff) as u8) by (bit_vector)
        requires
            v == (w << 24) | ((w & 0xff00) << 8) | ((w >> 8) & 0xff00) | (w >> 24),
    ;
}

/// Reading the words of a byte view and viewing them as bytes again gives
/// the same bytes.
pub proof fn lemma_bytes_of_lane_words(bytes: Seq<u8>)
    requires
        bytes.len() == 48,
    ensures
        lane_bytes(lane_words(bytes)) == bytes,
{
    assert forall|p: int| 0 <= p < 48 implies lane_bytes(lane_words(bytes))[p] == bytes[p] by {
        let j = p / 4;
        lemma_bytes_of_word(bytes[4 * j], bytes[4 * j + 1], bytes[4 * j + 2], bytes[4 * j + 3]);
    }
    assert(lane_bytes(lane_words(bytes)) =~= bytes);
}

/// Viewing a state as bytes and reading the words of that view gives the
/// same state.
pub proof fn lemma_words_of_lane_bytes(words: Seq<u32>)
    requires
        words.len() == 12,
    ensures
        lane_words(lane_bytes(words)) == words,
{
    assert forall|j: int| 0 <= j < 12 implies lane_words(lane_bytes(words))[j] == words[j] by {
        lemma_word_from_its_bytes(words[j]);
        assert((4 * j) / 4 == j && (4 * j) % 4 == 0);
        assert((4 * j + 1) / 4 == j && (4 * j + 1) % 4 == 1);
        assert((4 * j + 2) / 4 == j && (4 * j + 2) % 4 == 2);
        assert((4 * j + 3) / 4 == j && (4 * j + 3) % 4 == 3);
    }
    assert(lane_words(lane_bytes(words)) =~= words);
}

/// The byte view of the all-zero state is all zero.
pub proof fn lemma_zero_lane_bytes(words: Seq<u32>)
    requires
        words.len() == 12,
        forall|j: int| 0 <= j < 12 ==> words[j] == 0,
    ensures
        lane_bytes(words) == zero_bytes(),
{
    assert forall|p: int| 0 <= p < 48 implies lane_bytes(words)[p] == 0u8 by {
        assert(((0u32 >> 0u32) & 0xff) as u8 == 0u8) by (bit_vector);
        assert(((0u32 >> 8u32) & 0xff) as u8 == 0u8) by (bit_vector);
        assert(((0u32 >> 16u32) & 0xff) as u8 == 0u8) by (bit_vector);
        assert(((0u32 >> 24u32) & 0xff) as u8 == 0u8) by (bit_vector);
    }
    assert(lane_bytes(words) =~= zero_bytes());
}

/// XORing nothing changes nothing.
pub proof fn lemma_xor_at_empty(state: Seq<u8>, offset: int)
    ensures
        xor_at(state, Seq::<u8>::empty(), offset) == state,
{
    assert(xor_at(state, Seq::<u8>::empty(), offset) =~= state);
}

/// Copies `src` into `dst[at .. at + src.len()]`.
pub fn copy_into(dst: &mut [u8], at: usize, src: &[u8])
    requires
        at + src@.len() <= old(dst)@.len(),
    ensures
        final(dst)@ == splice(old(dst)@, at as int, src@),
{
    let total = dst.len();
    let n = src.len();
    let mut j: usize = 0;
    while j < n
        invariant
            j <= n,
            n == src@.len(),
            total == dst@.len(),
            at + n <= total,
            dst@ == splice(old(dst)@, at as int, src@.take(j as int)),
        decreases n - j,
    {
        dst[at + j] = src[j];
        j += 1;
        assert(dst@ =~= splice(old(dst)@, at as int, src@.take(j as int)));
    }
    assert(src@.take(n as int) =~= src@);
}

/// XORs `src[s .. s + n]` into `dst[d .. d + n]`.
pub fn xor_into(dst: &mut [u8], d: usize, src: &[u8], s: usize, n: usize)
    requires
        d + n <= old(dst)@.len(),
        s + n <= src@.len(),
    ensures
        final(dst)@ == splice(
            old(dst)@,
            d as int,
            xor_prefix(old(dst)@.subrange(d as int, d + n), src@.subrange(s as int, s + n)),
        ),
{
    let total = dst.len();
    let avail = src.len();
    let ghost a = dst@.subrange(d as int, d + n);
    let ghost b = src@.subrange(s as int, s + n);
    let mut j: usize = 0;
    while j < n
        invariant
            j <= n,
            total == dst@.len(),
            total == old(dst)@.len(),
            avail == src@.len(),
            d + n <= total,
            s + n <= avail,
            a == old(dst)@.subrange(d as int, d + n),
            b == src@.subrange(s as int, s + n),
            dst@ == splice(old(dst)@, d as int, xor_prefix(a, b).take(j as int)),
        decreases n - j,
    {
        dst[d + j] = dst[d + j] ^ src[s + j];
        j += 1;
        assert(dst@ =~= splice(old(dst)@, d as int, xor_prefix(a, b).take(j as int)));
    }
    assert(xor_prefix(a, b).take(n as int) =~= xor_prefix(a, b));
}

/// XOR on bytes does not depend on the order of its operands.
pub proof fn lemma_xor_commutes(a: u8, b: u8)
    ensures
        a ^ b == b ^ a,
{
    assert(a ^ b == b ^ a) by (bit_vector);
}

/// XORing the same byte twice gives back the first operand.
pub proof fn lemma_xor_cancels(a: u8, b: u8)
    ensures
        (a ^ b) ^ b == a,
        a ^ (a ^ b) == b,
{
    assert((a ^ b) ^ b == a) by (bit_vector);
    assert(a ^ (a ^ b) == b) by (bit_vector);
}

/// For sequences of one length, `xor_prefix` does not depend on the order
/// of its operands.
pub proof fn lemma_xor_prefix_commutes(a: Seq<u8>, b: Seq<u8>)
    requires
        a.len() == b.len(),
    ensures
        xor_prefix(a, b) == xor_prefix(b, a),
{
    assert forall|j: int| 0 <= j < a.len() implies xor_prefix(a, b)[j] == xor_prefix(b, a)[j] by {
        lemma_xor_commutes(a[j], b[j]);
    }
    assert(xor_prefix(a, b) =~= xor_prefix(b, a));
}

} // verus!
