//! The duplex construction as a mathematical object: a sponge is its
//! forty-eight bytes, its mode and its phase, and every operation is a
//! function from sponge and input to sponge and output.

use crate::bytes::{lane_bytes, lane_words, shorter, xor_at, xor_prefix, zero_bytes};
use crate::permutation::permutation;
use vstd::prelude::*;

verus! {

/// Bytes absorbed or squeezed per permutation call in hash mode.
pub const HASH_RATE: usize = 16;

/// Bytes absorbed per permutation call in keyed mode.
pub const KEYED_ABSORB_RATE: usize = 44;

/// Bytes squeezed per permutation call in keyed mode.
pub const KEYED_SQUEEZE_RATE: usize = 24;

/// Bytes squeezed and absorbed again by a ratchet.
pub const RATCHET_RATE: usize = 16;

/// How a sponge was made; it never changes afterwards.
#[derive(Copy, Clone, Debug, PartialEq, Eq, Structural)]
pub enum Mode {
    Hash,
    Keyed,
}

/// Whether the last primitive step was an up or a down.
#[derive(Copy, Clone, Debug, PartialEq, Eq, Structural)]
pub enum Phase {
    Up,
    Down,
}

impl Mode {
    /// Bytes absorbed per permutation call.
    pub open spec fn spec_absorb_rate(&self) -> usize {
        match self {
            Mode::Hash => HASH_RATE,
            Mode::Keyed => KEYED_ABSORB_RATE,
        }
    }

    /// Bytes squeezed per permutation call.
    pub open spec fn spec_squeeze_rate(&self) -> usize {
        match self {
            Mode::Hash => HASH_RATE,
            Mode::Keyed => KEYED_SQUEEZE_RATE,
        }
    }

    /// Bytes absorbed per permutation call.
    #[verifier::when_used_as_spec(spec_absorb_rate)]
    pub fn absorb_rate(&self) -> (r: usize)
        ensures
            r == self.spec_absorb_rate(),
    {
        match self {
            Mode::Hash => HASH_RATE,
            Mode::Keyed => KEYED_ABSORB_RATE,
        }
    }

    /// Bytes squeezed per permutation call.
    #[verifier::when_used_as_spec(spec_squeeze_rate)]
    pub fn squeeze_rate(&self) -> (r: usize)
        ensures
            r == self.spec_squeeze_rate(),
    {
        match self {
            Mode::Hash => HASH_RATE,
            Mode::Keyed => KEYED_SQUEEZE_RATE,
        }
    }
}

/// The twelve-round permutation on the byte view of a state.
pub open spec fn permute_bytes(bytes: Seq<u8>) -> Seq<u8> {
    lane_bytes(permutation(lane_words(bytes), 12))
}

/// The bytes of an optional input; an absent input has none.
pub open spec fn bytes_of(input: Option<&[u8]>) -> Seq<u8> {
    match input {
        Some(b) => b@,
        None => Seq::empty(),
    }
}

/// The abstract state of the duplex construction.
pub struct Sponge {
    pub bytes: Seq<u8>,
    pub mode: Mode,
    pub phase: Phase,
}

impl Sponge {
    /// A sponge holds forty-eight bytes.
    pub open spec fn wf(self) -> bool {
        self.bytes.len() == 48
    }

    /// The fresh sponge of the given mode: all bytes zero, phase up.
    pub open spec fn fresh(mode: Mode) -> Sponge {
        Sponge { bytes: zero_bytes(), mode, phase: Phase::Up }
    }

    /// Up: in keyed mode the domain byte `cu` is XORed into byte 47; then
    /// the state is permuted.
    #[verifier::opaque]
    pub open spec fn up(self, cu: u8) -> Sponge {
        let bytes = if self.mode is Keyed {
            xor_at(self.bytes, seq![cu], 47)
        } else {
            self.bytes
        };
        Sponge { bytes: permute_bytes(bytes), mode: self.mode, phase: Phase::Up }
    }

    /// Down: `block` is XORed into the state from byte 0 on, the padding
    /// byte `0x01` right after it, and the domain byte `cd` into byte 47,
    /// in hash mode reduced to its lowest bit.
    #[verifier::opaque]
    pub open spec fn down(self, block: Seq<u8>, cd: u8) -> Sponge {
        let padded = xor_at(xor_at(self.bytes, block, 0), seq![0x01u8], block.len() as int);
        let domain = if self.mode is Hash {
            cd & 0x01
        } else {
            cd
        };
        Sponge { bytes: xor_at(padded, seq![domain], 47), mode: self.mode, phase: Phase::Down }
    }

    /// Absorbs `bin` in chunks of `rate` bytes, each after an up with
    /// domain byte zero. No input, no change.
    pub open spec fn absorb_chunks(self, bin: Seq<u8>, rate: nat) -> Sponge
        decreases bin.len(),
    {
        if bin.len() == 0 || rate == 0 {
            self
        } else {
            let n = shorter(rate, bin.len());
            self.up(0).down(bin.take(n as int), 0).absorb_chunks(bin.skip(n as int), rate)
        }
    }

    /// Absorbs `bin` at `rate` bytes per chunk: an up first unless the
    /// phase is up already, then the first chunk, which may be empty, with
    /// domain byte `cd`, then the rest as `absorb_chunks` does.
    pub open spec fn absorb_any(self, bin: Seq<u8>, rate: nat, cd: u8) -> Sponge {
        let start = if self.phase is Up {
            self
        } else {
            self.up(0)
        };
        let n = shorter(rate, bin.len());
        start.down(bin.take(n as int), cd).absorb_chunks(bin.skip(n as int), rate)
    }

    /// Absorbs a message.
    pub open spec fn absorb(self, bin: Seq<u8>) -> Sponge {
        self.absorb_any(bin, self.mode.spec_absorb_rate() as nat, 0x03)
    }

    /// Absorbs a further part of a message.
    pub open spec fn absorb_more(self, bin: Seq<u8>) -> Sponge {
        self.absorb_chunks(bin, self.mode.spec_absorb_rate() as nat)
    }

    /// Squeezes `n` bytes in chunks of the squeeze rate, each after a down
    /// without input and an up, both with domain byte zero.
    pub open spec fn squeeze_chunks(self, n: nat) -> (Sponge, Seq<u8>)
        decreases n,
    {
        if n == 0 {
            (self, Seq::empty())
        } else {
            let s = self.down(Seq::empty(), 0).up(0);
            let k = shorter(self.mode.spec_squeeze_rate() as nat, n);
            let (t, rest) = s.squeeze_chunks((n - k) as nat);
            (t, s.bytes.take(k as int) + rest)
        }
    }

    /// Squeezes `n` bytes: an up with domain byte `cu` gives the first
    /// chunk, which may be empty; the rest comes as `squeeze_chunks` does.
    pub open spec fn squeeze_any(self, n: nat, cu: u8) -> (Sponge, Seq<u8>) {
        let s = self.up(cu);
        let k = shorter(self.mode.spec_squeeze_rate() as nat, n);
        let (t, rest) = s.squeeze_chunks((n - k) as nat);
        (t, s.bytes.take(k as int) + rest)
    }

    /// Squeezes `n` bytes of output.
    pub open spec fn squeeze(self, n: nat) -> (Sponge, Seq<u8>) {
        self.squeeze_any(n, 0x40)
    }

    /// Squeezes `n` further bytes.
    pub open spec fn squeeze_more(self, n: nat) -> (Sponge, Seq<u8>) {
        self.squeeze_chunks(n)
    }

    /// Squeezes `n` bytes of key material.
    pub open spec fn squeeze_key(self, n: nat) -> (Sponge, Seq<u8>) {
        self.squeeze_any(n, 0x20)
    }

    /// Squeezes sixteen bytes with domain byte `0x10` and absorbs them
    /// again with domain byte zero.
    pub open spec fn ratchet(self) -> Sponge {
        let (s, rolled) = self.squeeze_any(RATCHET_RATE as nat, 0x10);
        s.absorb_any(rolled, self.mode.spec_absorb_rate() as nat, 0x00)
    }

    /// Encrypts `bin` into `out`, twenty-four bytes at a time, as long as
    /// both have bytes left. For each pair of chunks an up with domain byte
    /// `cu` (zero from the second pair on) gives a key stream as long as
    /// the output chunk, the input chunk is absorbed, and the output chunk
    /// becomes the key stream with the input chunk XORed into it. What is
    /// left of `out` is kept.
    pub open spec fn encrypt_chunks(self, bin: Seq<u8>, out: Seq<u8>, cu: u8) -> (Sponge, Seq<u8>)
        decreases bin.len(),
    {
        if bin.len() == 0 || out.len() == 0 {
            (self, out)
        } else {
            let nb = shorter(KEYED_SQUEEZE_RATE as nat, bin.len());
            let no = shorter(KEYED_SQUEEZE_RATE as nat, out.len());
            let s = self.up(cu);
            let block = xor_prefix(s.bytes.take(no as int), bin.take(nb as int));
            let (t, rest) = s.down(bin.take(nb as int), 0).encrypt_chunks(
                bin.skip(nb as int),
                out.skip(no as int),
                0,
            );
            (t, block + rest)
        }
    }

    /// Decrypts `bin` into `out`, twenty-four bytes at a time, as long as
    /// both have bytes left. For each pair of chunks an up with domain byte
    /// `cu` (zero from the second pair on) gives a key stream as long as
    /// the output chunk, the output chunk becomes the key stream with the
    /// input chunk XORed into it, and that output chunk is absorbed. What
    /// is left of `out` is kept.
    pub open spec fn decrypt_chunks(self, bin: Seq<u8>, out: Seq<u8>, cu: u8) -> (Sponge, Seq<u8>)
        decreases bin.len(),
    {
        if bin.len() == 0 || out.len() == 0 {
            (self, out)
        } else {
            let nb = shorter(KEYED_SQUEEZE_RATE as nat, bin.len());
            let no = shorter(KEYED_SQUEEZE_RATE as nat, out.len());
            let s = self.up(cu);
            let block = xor_prefix(s.bytes.take(no as int), bin.take(nb as int));
            let (t, rest) = s.down(block, 0).decrypt_chunks(
                bin.skip(nb as int),
                out.skip(no as int),
                0,
            );
            (t, block + rest)
        }
    }

    /// Encrypts `bin` into `out`; the first up has domain byte `0x80`.
    pub open spec fn encrypt(self, bin: Seq<u8>, out: Seq<u8>) -> (Sponge, Seq<u8>) {
        self.encrypt_chunks(bin, out, 0x80)
    }

    /// Decrypts `bin` into `out`; the first up has domain byte `0x80`.
    pub open spec fn decrypt(self, bin: Seq<u8>, out: Seq<u8>) -> (Sponge, Seq<u8>) {
        self.decrypt_chunks(bin, out, 0x80)
    }

    /// The initialisation vector of a keyed sponge: key, key identifier,
    /// nonce, and one byte with the length of identifier and nonce
    /// together.
    pub open spec fn iv(key: Seq<u8>, key_id: Seq<u8>, nonce: Seq<u8>) -> Seq<u8> {
        key + key_id + nonce + seq![(key_id.len() + nonce.len()) as u8]
    }

    /// Absorbs the initialisation vector as one chunk with domain byte
    /// `0x02` and then the counter, if there is one, byte by byte with
    /// domain byte zero.
    pub open spec fn absorb_key(
        self,
        key: Seq<u8>,
        key_id: Seq<u8>,
        nonce: Seq<u8>,
        counter: Option<Seq<u8>>,
    ) -> Sponge {
        let s = self.absorb_any(Self::iv(key, key_id, nonce), KEYED_ABSORB_RATE as nat, 0x02);
        match counter {
            Some(c) => s.absorb_any(c, 1, 0x00),
            None => s,
        }
    }

    /// The keyed sponge for the given key material.
    pub open spec fn keyed(
        key: Seq<u8>,
        key_id: Seq<u8>,
        nonce: Seq<u8>,
        counter: Option<Seq<u8>>,
    ) -> Sponge {
        Self::fresh(Mode::Keyed).absorb_key(key, key_id, nonce, counter)
    }
}

/// Up and down keep a sponge well formed, never change its mode, and set
/// its phase.
pub proof fn lemma_steps_keep_shape(s: Sponge, block: Seq<u8>, c: u8)
    requires
        s.wf(),
    ensures
        s.up(c).wf(),
        s.up(c).mode == s.mode,
        s.up(c).phase is Up,
        s.down(block, c).wf(),
        s.down(block, c).mode == s.mode,
        s.down(block, c).phase is Down,
{
    reveal(Sponge::up);
    reveal(Sponge::down);
}

} // verus!
