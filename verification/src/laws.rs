//! What holds of the duplex construction across several operations.

use crate::bytes::{lemma_xor_cancels, shorter, xor_prefix};
use crate::duplex::{lemma_steps_keep_shape, Sponge, KEYED_SQUEEZE_RATE};
use vstd::arithmetic::div_mod::{lemma_mod_sub_multiples_vanish, lemma_small_mod};
use vstd::prelude::*;

verus! {

/// Absorbing in chunks keeps a sponge well formed and never changes its
/// mode.
pub proof fn lemma_absorb_chunks_keeps_shape(s: Sponge, bin: Seq<u8>, rate: nat)
    requires
        s.wf(),
    ensures
        s.absorb_chunks(bin, rate).wf(),
        s.absorb_chunks(bin, rate).mode == s.mode,
    decreases bin.len(),
{
    if bin.len() != 0 && rate != 0 {
        let n = shorter(rate, bin.len());
        lemma_steps_keep_shape(s, Seq::empty(), 0);
        lemma_steps_keep_shape(s.up(0), bin.take(n as int), 0);
        lemma_absorb_chunks_keeps_shape(
            s.up(0).down(bin.take(n as int), 0),
            bin.skip(n as int),
            rate,
        );
    }
}

/// Absorbing a message keeps a sponge well formed and never changes its
/// mode.
pub proof fn lemma_absorb_keeps_shape(s: Sponge, bin: Seq<u8>)
    requires
        s.wf(),
    ensures
        s.absorb(bin).wf(),
        s.absorb(bin).mode == s.mode,
{
    let rate = s.mode.spec_absorb_rate() as nat;
    let start = if s.phase is Up {
        s
    } else {
        s.up(0)
    };
    let n = shorter(rate, bin.len());
    lemma_steps_keep_shape(s, Seq::empty(), 0);
    lemma_steps_keep_shape(start, bin.take(n as int), 0x03);
    lemma_absorb_chunks_keeps_shape(start.down(bin.take(n as int), 0x03), bin.skip(n as int), rate);
}

/// Chunking invariance of continued absorption: when the first part fills
/// whole chunks, absorbing two parts one after the other is absorbing them
/// joined.
pub proof fn lemma_absorb_chunks_split(s: Sponge, a: Seq<u8>, b: Seq<u8>, rate: nat)
    requires
        rate > 0,
        a.len() % rate == 0,
    ensures
        s.absorb_chunks(a + b, rate) == s.absorb_chunks(a, rate).absorb_chunks(b, rate),
    decreases a.len(),
{
    if a.len() == 0 {
        assert(a + b =~= b);
    } else {
        if a.len() < rate {
            lemma_small_mod(a.len(), rate);
        }
        assert(a.len() >= rate);
        lemma_mod_sub_multiples_vanish(a.len() as int, rate as int);
        let next = s.up(0).down(a.take(rate as int), 0);
        assert((a + b).take(rate as int) =~= a.take(rate as int));
        assert((a + b).skip(rate as int) =~= a.skip(rate as int) + b);
        lemma_absorb_chunks_split(next, a.skip(rate as int), b, rate);
    }
}

/// Chunking invariance: absorbing a message in one call gives the sponge
/// that absorbing its first part and then, as a continuation, its second
/// part gives, when the first part is not empty and fills whole chunks of
/// the mode's absorb rate, or when the second part is empty.
pub proof fn lemma_absorb_split(s: Sponge, a: Seq<u8>, b: Seq<u8>)
    requires
        s.wf(),
        (a.len() > 0 && a.len() % (s.mode.spec_absorb_rate() as nat) == 0) || b.len() == 0,
    ensures
        s.absorb(a + b) == s.absorb(a).absorb_more(b),
{
    let rate = s.mode.spec_absorb_rate() as nat;
    lemma_absorb_keeps_shape(s, a);
    if b.len() == 0 {
        assert(a + b =~= a);
    } else {
        if a.len() < rate {
            lemma_small_mod(a.len(), rate);
        }
        assert(a.len() >= rate);
        lemma_mod_sub_multiples_vanish(a.len() as int, rate as int);
        let start = if s.phase is Up {
            s
        } else {
            s.up(0)
        };
        let next = start.down(a.take(rate as int), 0x03);
        assert((a + b).take(rate as int) =~= a.take(rate as int));
        assert((a + b).skip(rate as int) =~= a.skip(rate as int) + b);
        lemma_absorb_chunks_split(next, a.skip(rate as int), b, rate);
    }
}

/// The sponge that has absorbed `first` and then, as continuations, the
/// parts of `more` in order.
pub open spec fn absorb_parts(s: Sponge, first: Seq<u8>, more: Seq<Seq<u8>>) -> Sponge
    decreases more.len(),
{
    if more.len() == 0 {
        s.absorb(first)
    } else {
        absorb_parts(s, first, more.drop_last()).absorb_more(more.last())
    }
}

/// The parts of a message, joined.
pub open spec fn joined(first: Seq<u8>, more: Seq<Seq<u8>>) -> Seq<u8>
    decreases more.len(),
{
    if more.len() == 0 {
        first
    } else {
        joined(first, more.drop_last()) + more.last()
    }
}

/// Chunking invariance for any number of parts: absorbing the first part
/// and then every further part as a continuation gives the sponge that
/// absorbing all parts joined gives, when every further part is empty or
/// follows parts that, joined, are not empty and fill whole chunks of the
/// mode's absorb rate.
pub proof fn lemma_absorb_parts(s: Sponge, first: Seq<u8>, more: Seq<Seq<u8>>)
    requires
        s.wf(),
        forall|i: int|
            0 <= i < more.len() ==> (#[trigger] more[i]).len() == 0 || (joined(
                first,
                more.take(i),
            ).len() > 0 && joined(first, more.take(i)).len() % (s.mode.spec_absorb_rate() as nat)
                == 0),
    ensures
        absorb_parts(s, first, more) == s.absorb(joined(first, more)),
    decreases more.len(),
{
    if more.len() > 0 {
        let init = more.drop_last();
        assert forall|i: int| 0 <= i < init.len() implies (#[trigger] init[i]).len() == 0 || (
        joined(first, init.take(i)).len() > 0 && joined(first, init.take(i)).len() % (
        s.mode.spec_absorb_rate() as nat) == 0) by {
            assert(init[i] == more[i]);
            assert(init.take(i) =~= more.take(i));
        }
        lemma_absorb_parts(s, first, init);
        assert(more.take(more.len() - 1) =~= init);
        assert(more.last() == more[more.len() - 1]);
        lemma_absorb_split(s, joined(first, init), more.last());
    }
}

/// Encryption fills exactly the output buffer.
pub proof fn lemma_encrypt_length(s: Sponge, bin: Seq<u8>, out: Seq<u8>, cu: u8)
    requires
        s.wf(),
    ensures
        s.encrypt_chunks(bin, out, cu).1.len() == out.len(),
        s.encrypt_chunks(bin, out, cu).0.wf(),
        s.encrypt_chunks(bin, out, cu).0.mode == s.mode,
    decreases bin.len(),
{
    if bin.len() != 0 && out.len() != 0 {
        let nb = shorter(KEYED_SQUEEZE_RATE as nat, bin.len());
        let no = shorter(KEYED_SQUEEZE_RATE as nat, out.len());
        let next = s.up(cu).down(bin.take(nb as int), 0);
        lemma_steps_keep_shape(s, Seq::empty(), cu);
        lemma_steps_keep_shape(s.up(cu), bin.take(nb as int), 0);
        lemma_encrypt_length(next, bin.skip(nb as int), out.skip(no as int), 0);
    }
}

/// XORing a key stream into a text twice gives the text.
pub proof fn lemma_xor_prefix_cancels(stream: Seq<u8>, text: Seq<u8>)
    requires
        stream.len() == text.len(),
    ensures
        xor_prefix(stream, xor_prefix(stream, text)) == text,
{
    assert forall|j: int| 0 <= j < text.len() implies xor_prefix(stream, xor_prefix(stream, text))[j]
        == text[j] by {
        lemma_xor_cancels(stream[j], text[j]);
    }
    assert(xor_prefix(stream, xor_prefix(stream, text)) =~= text);
}

/// Round trip, chunk by chunk: from the same sponge and with the same
/// first domain byte, decrypting what encryption gave, into a buffer as
/// long as the message, gives the message, and both sponges end in the same
/// state.
pub proof fn lemma_decrypt_chunks_inverts_encrypt_chunks(
    s: Sponge,
    m: Seq<u8>,
    out: Seq<u8>,
    back: Seq<u8>,
    cu: u8,
)
    requires
        s.wf(),
        out.len() == m.len(),
        back.len() == m.len(),
    ensures
        s.decrypt_chunks(s.encrypt_chunks(m, out, cu).1, back, cu) == (
            s.encrypt_chunks(m, out, cu).0,
            m,
        ),
    decreases m.len(),
{
    if m.len() == 0 {
        assert(back =~= m);
    } else {
        let k = shorter(KEYED_SQUEEZE_RATE as nat, m.len());
        let s1 = s.up(cu);
        let stream = s1.bytes.take(k as int);
        let plain = m.take(k as int);
        let block = xor_prefix(stream, plain);
        let s2 = s1.down(plain, 0);
        lemma_steps_keep_shape(s, Seq::empty(), cu);
        lemma_steps_keep_shape(s1, plain, 0);
        let rest = s2.encrypt_chunks(m.skip(k as int), out.skip(k as int), 0);
        let c = block + rest.1;
        assert(s.encrypt_chunks(m, out, cu) == (rest.0, c));
        lemma_encrypt_length(s2, m.skip(k as int), out.skip(k as int), 0);
        assert(c.take(k as int) =~= block);
        assert(c.skip(k as int) =~= rest.1);
        lemma_xor_prefix_cancels(stream, plain);
        lemma_decrypt_chunks_inverts_encrypt_chunks(
            s2,
            m.skip(k as int),
            out.skip(k as int),
            back.skip(k as int),
            0,
        );
        assert(plain + m.skip(k as int) =~= m);
    }
}

/// Round trip: a sponge that decrypts what an equal sponge encrypted, into
/// a buffer as long as the message, recovers the message and ends in the
/// state of the encrypting sponge.
pub proof fn lemma_decrypt_inverts_encrypt(s: Sponge, m: Seq<u8>, out: Seq<u8>, back: Seq<u8>)
    requires
        s.wf(),
        out.len() == m.len(),
        back.len() == m.len(),
    ensures
        s.decrypt(s.encrypt(m, out).1, back) == (s.encrypt(m, out).0, m),
{
    lemma_decrypt_chunks_inverts_encrypt_chunks(s, m, out, back, 0x80);
}

} // verus!
