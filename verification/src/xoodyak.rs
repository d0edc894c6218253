//! Xoodyak: hashing, keyed authenticated encryption and ratcheting on one
//! twelve-round Xoodoo state.

use crate::bytes::{
    copy_into, lane_bytes, lemma_words_of_lane_bytes, lemma_xor_at_empty,
    lemma_xor_prefix_commutes, lemma_zero_lane_bytes, xor_into, xor_prefix,
};
use crate::duplex::{bytes_of, Mode, Phase, Sponge, KEYED_ABSORB_RATE, KEYED_SQUEEZE_RATE};
use crate::wipe::wipe_bytes;
use crate::xoodoo::Xoodoo;
use vstd::prelude::*;

verus! {

/// A Xoodyak instance.
#[derive(Debug)]
pub struct Xoodyak {
    state: Xoodoo<1, 12>,
    mode: Mode,
    phase: Phase,
}

impl View for Xoodyak {
    type V = Sponge;

    closed spec fn view(&self) -> Sponge {
        Sponge { bytes: lane_bytes(self.state@[0]), mode: self.mode, phase: self.phase }
    }
}

impl Clone for Xoodyak {
    fn clone(&self) -> (r: Self)
        ensures
            r@ == self@,
    {
        Xoodyak { state: self.state.clone(), mode: self.mode, phase: self.phase }
    }
}

impl Xoodyak {
    /// Every instance is a well-formed sponge.
    pub proof fn lemma_wf(&self)
        ensures
            self@.wf(),
    {
    }

    /// The mode that the sponge was made with.
    pub fn mode(&self) -> (m: Mode)
        ensures
            m == self@.mode,
    {
        self.mode
    }

    /// A fresh sponge in hash mode.
    pub fn hash() -> (r: Self)
        ensures
            r@ == Sponge::fresh(Mode::Hash),
    {
        let r = Xoodyak { state: Xoodoo::default(), phase: Phase::Up, mode: Mode::Hash };
        proof {
            r.state.lemma_shape();
            lemma_zero_lane_bytes(r.state@[0]);
        }
        r
    }

    /// A sponge in keyed mode that has absorbed `key`, `key_id`, `nonce`
    /// and `counter`.
    pub fn keyed(
        key: &[u8],
        key_id: Option<&[u8]>,
        nonce: Option<&[u8]>,
        counter: Option<&[u8]>,
    ) -> (r: Self)
        requires
            key@.len() + bytes_of(key_id).len() + bytes_of(nonce).len() + 1 <= KEYED_ABSORB_RATE,
        ensures
            r@.mode is Keyed,
            r@ == Sponge::keyed(
                key@,
                bytes_of(key_id),
                bytes_of(nonce),
                match counter {
                    Some(c) => Some(c@),
                    None => None,
                },
            ),
    {
        let mut xoodyak = Xoodyak {
            state: Xoodoo::default(),
            phase: Phase::Up,
            mode: Mode::Keyed,
        };
        proof {
            xoodyak.state.lemma_shape();
            lemma_zero_lane_bytes(xoodyak.state@[0]);
        }
        xoodyak.absorb_key(key, key_id, nonce, counter);
        xoodyak
    }

    /// Up: domain byte in keyed mode, then the permutation.
    fn up(&mut self, cu: u8)
        ensures
            final(self)@ == old(self)@.up(cu),
            final(self)@.mode == old(self)@.mode,
            final(self)@.phase is Up,
    {
        reveal(Sponge::up);
        self.phase = Phase::Up;
        match self.mode {
            Mode::Hash => {},
            Mode::Keyed => {
                let domain = [cu];
                assert(domain@ =~= seq![cu]);
                self.state.add_bytes(0, domain.as_slice(), 47);
            },
        }
        proof {
            self.state.lemma_shape();
            lemma_words_of_lane_bytes(self.state@[0]);
        }
        self.state.permute();
    }

    /// Down: input block, padding byte and domain byte.
    fn down(&mut self, bin: Option<&[u8]>, cd: u8)
        requires
            bytes_of(bin).len() <= old(self)@.mode.spec_absorb_rate(),
        ensures
            final(self)@ == old(self)@.down(bytes_of(bin), cd),
            final(self)@.mode == old(self)@.mode,
            final(self)@.phase is Down,
    {
        reveal(Sponge::down);
        self.phase = Phase::Down;
        let pad = [0x01u8];
        assert(pad@ =~= seq![0x01u8]);
        match bin {
            Some(block) => {
                self.state.add_bytes(0, block, 0);
                self.state.add_bytes(0, pad.as_slice(), block.len());
            },
            None => {
                proof {
                    lemma_xor_at_empty(lane_bytes(self.state@[0]), 0);
                }
                self.state.add_bytes(0, pad.as_slice(), 0);
            },
        }
        match self.mode {
            Mode::Hash => {
                let domain = [cd & 0x01];
                assert(domain@ =~= seq![cd & 0x01]);
                self.state.add_bytes(0, domain.as_slice(), 47);
            },
            Mode::Keyed => {
                let domain = [cd];
                assert(domain@ =~= seq![cd]);
                self.state.add_bytes(0, domain.as_slice(), 47);
            },
        }
    }

    /// Absorbs a message.
    pub fn absorb(&mut self, bin: &[u8])
        ensures
            final(self)@.mode == old(self)@.mode,
            final(self)@ == old(self)@.absorb(bin@),
    {
        let rate = self.mode.absorb_rate();
        self.absorb_any(bin, rate, 0x03);
    }

    /// Absorbs a further part of a message.
    pub fn absorb_more(&mut self, bin: &[u8])
        ensures
            final(self)@.mode == old(self)@.mode,
            final(self)@ == old(self)@.absorb_more(bin@),
    {
        let rate = self.mode.absorb_rate();
        assert(bin@.skip(0) =~= bin@);
        self.absorb_chunks(bin, 0, rate);
    }

    /// Absorbs `bin[from ..]` in chunks of `rate` bytes.
    fn absorb_chunks(&mut self, bin: &[u8], from: usize, rate: usize)
        requires
            from <= bin@.len(),
            1 <= rate <= old(self)@.mode.spec_absorb_rate(),
        ensures
            final(self)@.mode == old(self)@.mode,
            final(self)@ == old(self)@.absorb_chunks(bin@.skip(from as int), rate as nat),
    {
        let n = bin.len();
        let mut pos: usize = from;
        while pos < n
            invariant
                from <= pos <= n,
                n == bin@.len(),
                1 <= rate <= self@.mode.spec_absorb_rate(),
                self@.mode == old(self)@.mode,
                self@.absorb_chunks(bin@.skip(pos as int), rate as nat) == old(self)@.absorb_chunks(
                    bin@.skip(from as int),
                    rate as nat,
                ),
            decreases n - pos,
        {
            let k = if n - pos < rate {
                n - pos
            } else {
                rate
            };
            let ghost rest = bin@.skip(pos as int);
            self.up(0x00);
            let chunk = &bin[pos..pos + k];
            proof {
                assert(chunk@ =~= rest.take(k as int));
                assert(bin@.skip(pos + k) =~= rest.skip(k as int));
            }
            self.down(Some(chunk), 0x00);
            pos = pos + k;
        }
    }

    /// Absorbs `bin` at `rate` bytes per chunk, the first chunk with domain
    /// byte `cd`.
    fn absorb_any(&mut self, bin: &[u8], rate: usize, cd: u8)
        requires
            1 <= rate <= old(self)@.mode.spec_absorb_rate(),
        ensures
            final(self)@.mode == old(self)@.mode,
            final(self)@ == old(self)@.absorb_any(bin@, rate as nat, cd),
    {
        match self.phase {
            Phase::Up => {},
            Phase::Down => {
                self.up(0x00);
            },
        }
        let n = bin.len();
        let k = if n < rate {
            n
        } else {
            rate
        };
        if n == 0 {
            assert(bin@.take(0) =~= Seq::<u8>::empty());
            self.down(None, cd);
        } else {
            let chunk = &bin[0..k];
            assert(chunk@ =~= bin@.take(k as int));
            self.down(Some(chunk), cd);
        }
        self.absorb_chunks(bin, k, rate);
    }

    /// Absorbs key, key identifier, nonce and counter into a keyed sponge.
    fn absorb_key(
        &mut self,
        key: &[u8],
        key_id: Option<&[u8]>,
        nonce: Option<&[u8]>,
        counter: Option<&[u8]>,
    )
        requires
            old(self)@.mode is Keyed,
            key@.len() + bytes_of(key_id).len() + bytes_of(nonce).len() + 1 <= KEYED_ABSORB_RATE,
        ensures
            final(self)@.mode == old(self)@.mode,
            final(self)@ == old(self)@.absorb_key(
                key@,
                bytes_of(key_id),
                bytes_of(nonce),
                match counter {
                    Some(c) => Some(c@),
                    None => None,
                },
            ),
    {
        let mut iv = [0u8; 44];
        let mut at: usize = key.len();
        copy_into(&mut iv, 0, key);
        match key_id {
            Some(id) => {
                copy_into(&mut iv, at, id);
                at = at + id.len();
            },
            None => {},
        }
        match nonce {
            Some(n) => {
                copy_into(&mut iv, at, n);
                at = at + n.len();
            },
            None => {},
        }
        let id_len = at - key.len();
        iv[at] = id_len as u8;
        let iv_len = at + 1;
        let filled = &iv[0..iv_len];
        proof {
            assert(filled@ =~= Sponge::iv(key@, bytes_of(key_id), bytes_of(nonce)));
        }
        self.absorb_any(filled, KEYED_ABSORB_RATE, 0x02);
        match counter {
            Some(c) => {
                self.absorb_any(c, 1, 0x00);
            },
            None => {},
        }
        wipe_bytes(&mut iv);
    }

    /// Squeezes output into `out[from ..]` in chunks of the squeeze rate.
    fn squeeze_chunks(&mut self, out: &mut [u8], from: usize)
        requires
            from <= old(out)@.len(),
        ensures
            final(self)@.mode == old(self)@.mode,
            final(out)@.len() == old(out)@.len(),
            final(out)@.take(from as int) == old(out)@.take(from as int),
            (final(self)@, final(out)@.skip(from as int)) == old(self)@.squeeze_chunks(
                (old(out)@.len() - from) as nat,
            ),
    {
        let n = out.len();
        let rate = self.mode.squeeze_rate();
        let ghost goal = old(self)@.squeeze_chunks((n - from) as nat);
        let mut pos: usize = from;
        while pos < n
            invariant
                from <= pos <= n,
                n == out@.len(),
                n == old(out)@.len(),
                rate == self@.mode.spec_squeeze_rate(),
                self@.mode == old(self)@.mode,
                out@.take(from as int) == old(out)@.take(from as int),
                self@.squeeze_chunks((n - pos) as nat).0 == goal.0,
                out@.subrange(from as int, pos as int) + self@.squeeze_chunks((n - pos) as nat).1
                    == goal.1,
            decreases n - pos,
        {
            let k = if n - pos < rate {
                n - pos
            } else {
                rate
            };
            let ghost before = out@;
            let ghost start = self@;
            self.down(None, 0x00);
            self.up(0x00);
            self.state.extract_into(0, out, pos, k);
            proof {
                let stream = self@.bytes.take(k as int);
                let tail = self@.squeeze_chunks((n - pos - k) as nat);
                assert(start.squeeze_chunks((n - pos) as nat) == (tail.0, stream + tail.1));
                assert(out@.take(from as int) =~= before.take(from as int));
                assert(out@.subrange(from as int, pos + k) =~= before.subrange(
                    from as int,
                    pos as int,
                ) + stream);
                assert((before.subrange(from as int, pos as int) + stream) + tail.1
                    =~= before.subrange(from as int, pos as int) + (stream + tail.1));
            }
            pos = pos + k;
        }
        assert(out@.skip(from as int) =~= out@.subrange(from as int, n as int) + Seq::<u8>::empty());
    }

    /// Squeezes `out.len()` bytes of output.
    pub fn squeeze(&mut self, out: &mut [u8])
        ensures
            final(self)@.mode == old(self)@.mode,
            final(out)@.len() == old(out)@.len(),
            (final(self)@, final(out)@) == old(self)@.squeeze(old(out)@.len()),
    {
        self.squeeze_any(out, 0x40);
    }

    /// Squeezes `out.len()` bytes of key material from a keyed sponge.
    pub fn squeeze_key(&mut self, out: &mut [u8])
        requires
            old(self)@.mode is Keyed,
        ensures
            final(self)@.mode == old(self)@.mode,
            final(out)@.len() == old(out)@.len(),
            (final(self)@, final(out)@) == old(self)@.squeeze_key(old(out)@.len()),
    {
        self.squeeze_any(out, 0x20);
    }

    /// Squeezes `out.len()` further bytes.
    pub fn squeeze_more(&mut self, out: &mut [u8])
        ensures
            final(self)@.mode == old(self)@.mode,
            final(out)@.len() == old(out)@.len(),
            (final(self)@, final(out)@) == old(self)@.squeeze_more(old(out)@.len()),
    {
        self.squeeze_chunks(out, 0);
        assert(out@.skip(0) =~= out@);
    }

    /// Squeezes `out.len()` bytes, the first chunk with domain byte `cu`.
    pub fn squeeze_any(&mut self, out: &mut [u8], cu: u8)
        ensures
            final(self)@.mode == old(self)@.mode,
            final(out)@.len() == old(out)@.len(),
            (final(self)@, final(out)@) == old(self)@.squeeze_any(old(out)@.len(), cu),
    {
        let n = out.len();
        let rate = self.mode.squeeze_rate();
        let k = if n < rate {
            n
        } else {
            rate
        };
        self.up(cu);
        let ghost first = self@.bytes.take(k as int);
        self.state.extract_into(0, out, 0, k);
        assert(out@.take(k as int) =~= first);
        self.squeeze_chunks(out, k);
        assert(out@ =~= first + out@.skip(k as int));
    }

    /// Advances a keyed sponge so that its earlier states cannot be
    /// recovered from it.
    pub fn ratchet(&mut self)
        requires
            old(self)@.mode is Keyed,
        ensures
            final(self)@.mode == old(self)@.mode,
            final(self)@ == old(self)@.ratchet(),
    {
        let mut rolled_key = [0u8; 16];
        self.squeeze_any(&mut rolled_key, 0x10);
        let rate = self.mode.absorb_rate();
        self.absorb_any(rolled_key.as_slice(), rate, 0x00);
        wipe_bytes(&mut rolled_key);
    }

    /// Encrypts `bin` into `out`, absorbing the plaintext.
    pub fn encrypt(&mut self, bin: &[u8], out: &mut [u8])
        requires
            old(self)@.mode is Keyed,
        ensures
            final(self)@.mode == old(self)@.mode,
            final(out)@.len() == old(out)@.len(),
            (final(self)@, final(out)@) == old(self)@.encrypt(bin@, old(out)@),
    {
        let in_len = bin.len();
        let out_len = out.len();
        let ghost goal = old(self)@.encrypt_chunks(bin@, old(out)@, 0x80);
        let mut cu: u8 = 0x80;
        let mut ipos: usize = 0;
        let mut opos: usize = 0;
        assert(bin@.skip(0) =~= bin@ && out@.skip(0) =~= out@);
        assert(out@.take(0) + goal.1 =~= goal.1);
        while ipos < in_len && opos < out_len
            invariant
                ipos <= in_len,
                opos <= out_len,
                in_len == bin@.len(),
                out_len == out@.len(),
                out_len == old(out)@.len(),
                self@.mode is Keyed,
                self@.encrypt_chunks(bin@.skip(ipos as int), out@.skip(opos as int), cu).0
                    == goal.0,
                out@.take(opos as int) + self@.encrypt_chunks(
                    bin@.skip(ipos as int),
                    out@.skip(opos as int),
                    cu,
                ).1 == goal.1,
            decreases in_len - ipos,
        {
            let nb = if in_len - ipos < KEYED_SQUEEZE_RATE {
                in_len - ipos
            } else {
                KEYED_SQUEEZE_RATE
            };
            let no = if out_len - opos < KEYED_SQUEEZE_RATE {
                out_len - opos
            } else {
                KEYED_SQUEEZE_RATE
            };
            let m = if nb < no {
                nb
            } else {
                no
            };
            let ghost before = out@;
            let ghost start = self@;
            self.up(cu);
            let ghost stream = self@.bytes.take(no as int);
            self.state.extract_into(0, out, opos, no);
            let chunk = &bin[ipos..ipos + nb];
            self.down(Some(chunk), 0x00);
            xor_into(out, opos, bin, ipos, m);
            proof {
                let block = xor_prefix(stream, chunk@);
                let tail = self@.encrypt_chunks(
                    bin@.skip(ipos + nb),
                    out@.skip(opos + no),
                    0,
                );
                assert(chunk@ =~= bin@.skip(ipos as int).take(nb as int));
                assert(bin@.skip(ipos as int).skip(nb as int) =~= bin@.skip(ipos + nb));
                assert(before.skip(opos as int).skip(no as int) =~= out@.skip(opos + no));
                assert(start.encrypt_chunks(bin@.skip(ipos as int), before.skip(opos as int), cu)
                    == (tail.0, block + tail.1));
                assert(out@.take(opos + no) =~= before.take(opos as int) + block);
                assert((before.take(opos as int) + block) + tail.1 =~= before.take(opos as int) + (
                block + tail.1));
            }
            cu = 0x00;
            ipos = ipos + nb;
            opos = opos + no;
        }
        assert(out@.take(opos as int) + out@.skip(opos as int) =~= out@);
    }

    /// Decrypts `bin` into `out`, absorbing the recovered plaintext.
    pub fn decrypt(&mut self, bin: &[u8], out: &mut [u8])
        requires
            old(self)@.mode is Keyed,
        ensures
            final(self)@.mode == old(self)@.mode,
            final(out)@.len() == old(out)@.len(),
            (final(self)@, final(out)@) == old(self)@.decrypt(bin@, old(out)@),
    {
        let in_len = bin.len();
        let out_len = out.len();
        let ghost goal = old(self)@.decrypt_chunks(bin@, old(out)@, 0x80);
        let mut cu: u8 = 0x80;
        let mut ipos: usize = 0;
        let mut opos: usize = 0;
        assert(bin@.skip(0) =~= bin@ && out@.skip(0) =~= out@);
        assert(out@.take(0) + goal.1 =~= goal.1);
        while ipos < in_len && opos < out_len
            invariant
                ipos <= in_len,
                opos <= out_len,
                in_len == bin@.len(),
                out_len == out@.len(),
                out_len == old(out)@.len(),
                self@.mode is Keyed,
                self@.decrypt_chunks(bin@.skip(ipos as int), out@.skip(opos as int), cu).0
                    == goal.0,
                out@.take(opos as int) + self@.decrypt_chunks(
                    bin@.skip(ipos as int),
                    out@.skip(opos as int),
                    cu,
                ).1 == goal.1,
            decreases in_len - ipos,
        {
            let nb = if in_len - ipos < KEYED_SQUEEZE_RATE {
                in_len - ipos
            } else {
                KEYED_SQUEEZE_RATE
            };
            let no = if out_len - opos < KEYED_SQUEEZE_RATE {
                out_len - opos
            } else {
                KEYED_SQUEEZE_RATE
            };
            let m = if nb < no {
                nb
            } else {
                no
            };
            let ghost before = out@;
            let ghost start = self@;
            self.up(cu);
            let ghost stream = self@.bytes.take(no as int);
            self.state.extract_into(0, out, opos, no);
            xor_into(out, opos, bin, ipos, m);
            let ghost block = xor_prefix(stream, bin@.skip(ipos as int).take(nb as int));
            let plain = &out[opos..opos + no];
            assert(plain@ =~= block);
            self.down(Some(plain), 0x00);
            proof {
                let tail = self@.decrypt_chunks(
                    bin@.skip(ipos + nb),
                    out@.skip(opos + no),
                    0,
                );
                assert(bin@.skip(ipos as int).skip(nb as int) =~= bin@.skip(ipos + nb));
                assert(before.skip(opos as int).skip(no as int) =~= out@.skip(opos + no));
                assert(start.decrypt_chunks(bin@.skip(ipos as int), before.skip(opos as int), cu)
                    == (tail.0, block + tail.1));
                assert(out@.take(opos + no) =~= before.take(opos as int) + block);
                assert((before.take(opos as int) + block) + tail.1 =~= before.take(opos as int) + (
                block + tail.1));
            }
            cu = 0x00;
            ipos = ipos + nb;
            opos = opos + no;
        }
        assert(out@.take(opos as int) + out@.skip(opos as int) =~= out@);
    }

    /// Encrypts `in_out` in place, absorbing the plaintext.
    pub fn encrypt_in_place(&mut self, in_out: &mut [u8])
        requires
            old(self)@.mode is Keyed,
        ensures
            final(self)@.mode == old(self)@.mode,
            final(in_out)@.len() == old(in_out)@.len(),
            (final(self)@, final(in_out)@) == old(self)@.encrypt(old(in_out)@, old(in_out)@),
    {
        let n = in_out.len();
        let ghost text = old(in_out)@;
        let ghost goal = old(self)@.encrypt_chunks(text, text, 0x80);
        let mut tmp = [0u8; 24];
        let mut cu: u8 = 0x80;
        let mut pos: usize = 0;
        assert(text.skip(0) =~= text);
        assert(in_out@.take(0) + goal.1 =~= goal.1);
        while pos < n
            invariant
                pos <= n,
                n == in_out@.len(),
                n == text.len(),
                text == old(in_out)@,
                self@.mode is Keyed,
                in_out@.skip(pos as int) == text.skip(pos as int),
                self@.encrypt_chunks(text.skip(pos as int), text.skip(pos as int), cu).0 == goal.0,
                in_out@.take(pos as int) + self@.encrypt_chunks(
                    text.skip(pos as int),
                    text.skip(pos as int),
                    cu,
                ).1 == goal.1,
            decreases n - pos,
        {
            let k = if n - pos < KEYED_SQUEEZE_RATE {
                n - pos
            } else {
                KEYED_SQUEEZE_RATE
            };
            let ghost before = in_out@;
            let ghost start = self@;
            self.up(cu);
            let ghost stream = self@.bytes.take(k as int);
            self.state.extract_into(0, &mut tmp, 0, KEYED_SQUEEZE_RATE);
            let chunk = &in_out[pos..pos + k];
            let ghost plain = chunk@;
            assert(plain =~= text.skip(pos as int).take(k as int));
            self.down(Some(chunk), 0x00);
            xor_into(in_out, pos, tmp.as_slice(), 0, k);
            proof {
                let block = xor_prefix(stream, plain);
                let tail = self@.encrypt_chunks(text.skip(pos + k), text.skip(pos + k), 0);
                assert(tmp@.subrange(0, k as int) =~= stream);
                assert(before.subrange(pos as int, pos + k) =~= plain);
                lemma_xor_prefix_commutes(plain, stream);
                assert(text.skip(pos as int).skip(k as int) =~= text.skip(pos + k));
                assert(in_out@.skip(pos + k) =~= text.skip(pos + k));
                assert(start.encrypt_chunks(text.skip(pos as int), text.skip(pos as int), cu) == (
                    tail.0,
                    block + tail.1,
                ));
                assert(in_out@.take(pos + k) =~= before.take(pos as int) + block);
                assert((before.take(pos as int) + block) + tail.1 =~= before.take(pos as int) + (
                block + tail.1));
            }
            cu = 0x00;
            pos = pos + k;
        }
        assert(in_out@.take(pos as int) + text.skip(pos as int) =~= in_out@);
        wipe_bytes(&mut tmp);
    }

    /// Decrypts `in_out` in place, absorbing the recovered plaintext.
    pub fn decrypt_in_place(&mut self, in_out: &mut [u8])
        requires
            old(self)@.mode is Keyed,
        ensures
            final(self)@.mode == old(self)@.mode,
            final(in_out)@.len() == old(in_out)@.len(),
            (final(self)@, final(in_out)@) == old(self)@.decrypt(old(in_out)@, old(in_out)@),
    {
        let n = in_out.len();
        let ghost text = old(in_out)@;
        let ghost goal = old(self)@.decrypt_chunks(text, text, 0x80);
        let mut tmp = [0u8; 24];
        let mut cu: u8 = 0x80;
        let mut pos: usize = 0;
        assert(text.skip(0) =~= text);
        assert(in_out@.take(0) + goal.1 =~= goal.1);
        while pos < n
            invariant
                pos <= n,
                n == in_out@.len(),
                n == text.len(),
                text == old(in_out)@,
                self@.mode is Keyed,
                in_out@.skip(pos as int) == text.skip(pos as int),
                self@.decrypt_chunks(text.skip(pos as int), text.skip(pos as int), cu).0 == goal.0,
                in_out@.take(pos as int) + self@.decrypt_chunks(
                    text.skip(pos as int),
                    text.skip(pos as int),
                    cu,
                ).1 == goal.1,
            decreases n - pos,
        {
            let k = if n - pos < KEYED_SQUEEZE_RATE {
                n - pos
            } else {
                KEYED_SQUEEZE_RATE
            };
            let ghost before = in_out@;
            let ghost start = self@;
            let ghost cipher = text.skip(pos as int).take(k as int);
            self.up(cu);
            let ghost stream = self@.bytes.take(k as int);
            self.state.extract_into(0, &mut tmp, 0, KEYED_SQUEEZE_RATE);
            xor_into(in_out, pos, tmp.as_slice(), 0, k);
            let ghost block = xor_prefix(stream, cipher);
            proof {
                assert(tmp@.subrange(0, k as int) =~= stream);
                assert(before.subrange(pos as int, pos + k) =~= cipher);
                lemma_xor_prefix_commutes(cipher, stream);
            }
            let plain = &in_out[pos..pos + k];
            assert(plain@ =~= block);
            self.down(Some(plain), 0x00);
            proof {
                let tail = self@.decrypt_chunks(text.skip(pos + k), text.skip(pos + k), 0);
                assert(text.skip(pos as int).skip(k as int) =~= text.skip(pos + k));
                assert(in_out@.skip(pos + k) =~= text.skip(pos + k));
                assert(start.decrypt_chunks(text.skip(pos as int), text.skip(pos as int), cu) == (
                    tail.0,
                    block + tail.1,
                ));
                assert(in_out@.take(pos + k) =~= before.take(pos as int) + block);
                assert((before.take(pos as int) + block) + tail.1 =~= before.take(pos as int) + (
                block + tail.1));
            }
            cu = 0x00;
            pos = pos + k;
        }
        assert(in_out@.take(pos as int) + text.skip(pos as int) =~= in_out@);
        wipe_bytes(&mut tmp);
    }
}

} // verus!
