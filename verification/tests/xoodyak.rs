use xoodoo::duplex::Mode;
use xoodoo::Xoodyak;

#[test]
fn test_keyed_empty() {
    let mut st = Xoodyak::keyed(b"key", None, None, None);
    let mut out = [0u8; 32];
    st.squeeze(&mut out);
    assert_eq!(
        out,
        [
            106, 247, 180, 176, 207, 217, 130, 200, 237, 113, 163, 185, 224, 53, 120, 137, 251,
            126, 216, 3, 87, 45, 239, 214, 41, 201, 246, 56, 83, 55, 18, 108
        ]
    );
}

#[test]
fn test_unkeyed_empty() {
    let mut st = Xoodyak::hash();
    let mut out = [0u8; 32];
    st.squeeze(&mut out);
    assert_eq!(
        out,
        [
            141, 216, 213, 137, 191, 252, 99, 169, 25, 45, 35, 27, 20, 160, 165, 255, 204, 246,
            41, 214, 87, 39, 76, 114, 39, 130, 131, 52, 124, 189, 128, 53
        ]
    );

    let mut st = Xoodyak::hash();
    let mut out = [0u8; 32];
    st.absorb(&[]);
    st.squeeze(&mut out);
    assert_eq!(
        out,
        [
            234, 21, 47, 43, 71, 188, 226, 78, 251, 102, 196, 121, 212, 173, 241, 123, 211, 36,
            216, 6, 232, 95, 247, 94, 227, 105, 238, 80, 220, 143, 139, 209
        ]
    );
}

#[test]
fn test_encrypt() {
    let st0 = Xoodyak::keyed(b"key", None, None, None);
    let m = b"message";
    let mut c = vec![0; m.len()];
    let mut m2 = vec![0; m.len()];

    let mut st = st0.clone();
    st.encrypt(&m[..], &mut c);
    let mut st = st0.clone();
    st.decrypt(&c, &mut m2);
    assert_eq!(&m[..], m2.as_slice());

    let mut st = st0.clone();
    st.ratchet();
    st.decrypt(&c, &mut m2);
    assert_ne!(&m[..], m2.as_slice());

    let c0 = c.clone();
    let mut st = st0.clone();
    st.decrypt_in_place(&mut c);
    assert_eq!(&m[..], &c[..]);

    let mut st = st0;
    st.encrypt_in_place(&mut c);
    assert_eq!(c0, c);

    let mut tag = [0; 32];
    st.squeeze(&mut tag);
    assert_eq!(
        tag,
        [
            10, 175, 140, 82, 142, 109, 23, 111, 201, 232, 32, 52, 122, 46, 254, 206, 236, 54,
            97, 165, 40, 85, 166, 91, 124, 88, 26, 144, 100, 250, 243, 157
        ]
    );
}

#[test]
fn test_unkeyed_hash() {
    let mut st = Xoodyak::hash();
    let m = b"Lorem Ipsum is simply dummy text of the printing and typesetting industry. Lorem Ipsum has been the industry's standard dummy text ever since the 1500s, when an unknown printer took a galley of type and scrambled it to make a type specimen book. It has survived not only five centuries, but also the leap into electronic typesetting, remaining essentially unchanged. It was popularised in the 1960s with the release of Letraset sheets containing Lorem Ipsum passages, and more recently with desktop publishing software like Aldus PageMaker including versions of Lorem Ipsum.";
    st.absorb(&m[..]);
    let mut hash = [0; 32];
    st.squeeze(&mut hash);
    assert_eq!(
        hash,
        [
            144, 82, 141, 27, 59, 215, 34, 104, 197, 106, 251, 142, 112, 235, 111, 168, 19, 6,
            112, 222, 160, 168, 230, 38, 27, 229, 248, 179, 94, 227, 247, 25
        ]
    );
    st.absorb(&m[..]);
    st.squeeze(&mut hash);
    assert_eq!(
        hash,
        [
            102, 50, 250, 132, 79, 91, 248, 161, 121, 248, 225, 33, 105, 159, 111, 230, 135,
            252, 43, 228, 152, 41, 58, 242, 211, 252, 29, 234, 181, 0, 196, 220
        ]
    );
}

fn sample(len: usize, seed: u8) -> Vec<u8> {
    let mut v = Vec::with_capacity(len);
    let mut x = seed;
    for i in 0..len {
        x = x.wrapping_mul(167).wrapping_add(i as u8).wrapping_add(13);
        v.push(x);
    }
    v
}

fn keyed_with_nonce() -> Xoodyak {
    Xoodyak::keyed(b"0123456789abcdef", Some(b"id"), Some(b"nonce-01"), None)
}

#[test]
fn test_round_trip_all_lengths() {
    for len in 0..100usize {
        let m = sample(len, len as u8);
        let mut c = vec![0u8; len];
        let mut m2 = vec![0xaau8; len];
        let mut enc = keyed_with_nonce();
        enc.encrypt(&m, &mut c);
        let mut dec = keyed_with_nonce();
        dec.decrypt(&c, &mut m2);
        assert_eq!(m, m2);
        let mut t1 = [0u8; 16];
        let mut t2 = [0u8; 16];
        enc.squeeze(&mut t1);
        dec.squeeze(&mut t2);
        assert_eq!(t1, t2);
    }
}

#[test]
fn test_round_trip_in_place_matches_two_buffers() {
    for len in [0usize, 1, 23, 24, 25, 47, 48, 49, 72, 120] {
        let m = sample(len, 7);
        let mut c = vec![0u8; len];
        let mut st = keyed_with_nonce();
        st.encrypt(&m, &mut c);
        let mut buf = m.clone();
        let mut st2 = keyed_with_nonce();
        st2.encrypt_in_place(&mut buf);
        assert_eq!(c, buf);
        let mut st3 = keyed_with_nonce();
        st3.decrypt_in_place(&mut buf);
        assert_eq!(m, buf);
        let mut t1 = [0u8; 16];
        let mut t2 = [0u8; 16];
        let mut t3 = [0u8; 16];
        st.squeeze(&mut t1);
        st2.squeeze(&mut t2);
        st3.squeeze(&mut t3);
        assert_eq!(t1, t2);
        assert_eq!(t1, t3);
    }
}

fn seal(m: &[u8]) -> (Vec<u8>, [u8; 16]) {
    let mut st = keyed_with_nonce();
    let mut c = vec![0u8; m.len()];
    st.encrypt(m, &mut c);
    let mut tag = [0u8; 16];
    st.squeeze(&mut tag);
    (c, tag)
}

fn open(c: &[u8], tag: [u8; 16]) -> Option<Vec<u8>> {
    let mut st = keyed_with_nonce();
    let mut m = vec![0u8; c.len()];
    st.decrypt(c, &mut m);
    let mut expected = [0u8; 16];
    st.squeeze(&mut expected);
    match xoodoo::Tag::from(expected).verify(tag) {
        Ok(()) => Some(m),
        Err(_) => None,
    }
}

#[test]
fn test_tampered_ciphertext_is_rejected() {
    for len in [0usize, 1, 24, 48] {
        let m = sample(len, 3);
        let (c, tag) = seal(&m);
        assert_eq!(open(&c, tag), Some(m.clone()));
        for i in 0..len {
            for bit in 0..8 {
                let mut bad = c.clone();
                bad[i] ^= 1 << bit;
                assert_eq!(open(&bad, tag), None);
            }
        }
        for i in 0..16 {
            for bit in 0..8 {
                let mut bad = tag;
                bad[i] ^= 1 << bit;
                assert_eq!(open(&c, bad), None);
            }
        }
    }
}

#[test]
fn test_ratchet_changes_later_output() {
    let st0 = keyed_with_nonce();
    let m = sample(30, 9);
    let mut c = vec![0u8; 30];
    let mut st = st0.clone();
    st.encrypt(&m, &mut c);

    let mut plain = st0.clone();
    let mut m2 = vec![0u8; 30];
    plain.decrypt(&c, &mut m2);
    assert_eq!(m, m2);

    let mut ratcheted = st0.clone();
    ratcheted.ratchet();
    let mut m3 = vec![0u8; 30];
    ratcheted.decrypt(&c, &mut m3);
    assert_ne!(m, m3);
}

#[test]
fn test_absorb_in_one_call_or_in_parts() {
    let m = sample(16 * 5 + 3, 1);
    for cut in [16usize, 32, 48, 64, 80] {
        let mut one = Xoodyak::hash();
        one.absorb(&m);
        let mut parts = Xoodyak::hash();
        parts.absorb(&m[..cut]);
        parts.absorb_more(&m[cut..]);
        let mut h1 = [0u8; 32];
        let mut h2 = [0u8; 32];
        one.squeeze(&mut h1);
        parts.squeeze(&mut h2);
        assert_eq!(h1, h2);
    }
    let k = sample(44 * 3 + 10, 2);
    let mut one = keyed_with_nonce();
    one.absorb(&k);
    let mut parts = keyed_with_nonce();
    parts.absorb(&k[..44]);
    parts.absorb_more(&k[44..88]);
    parts.absorb_more(&k[88..]);
    let mut h1 = [0u8; 32];
    let mut h2 = [0u8; 32];
    one.squeeze(&mut h1);
    parts.squeeze(&mut h2);
    assert_eq!(h1, h2);
}

#[test]
fn test_absorb_split_off_a_partial_chunk_differs() {
    let m = sample(40, 5);
    let mut one = Xoodyak::hash();
    one.absorb(&m);
    let mut parts = Xoodyak::hash();
    parts.absorb(&m[..10]);
    parts.absorb_more(&m[10..]);
    let mut h1 = [0u8; 32];
    let mut h2 = [0u8; 32];
    one.squeeze(&mut h1);
    parts.squeeze(&mut h2);
    assert_ne!(h1, h2);
}

#[test]
fn test_squeeze_in_one_call_or_in_parts() {
    let mut one = Xoodyak::hash();
    one.absorb(b"abc");
    let mut all = [0u8; 80];
    one.squeeze(&mut all);

    let mut parts = Xoodyak::hash();
    parts.absorb(b"abc");
    let mut head = [0u8; 32];
    let mut tail = [0u8; 48];
    parts.squeeze(&mut head);
    parts.squeeze_more(&mut tail);
    assert_eq!(&all[..32], &head[..]);
    assert_eq!(&all[32..], &tail[..]);
}

#[test]
fn test_squeeze_key_differs_from_squeeze() {
    let mut a = keyed_with_nonce();
    let mut b = keyed_with_nonce();
    let mut c = keyed_with_nonce();
    let mut ka = [0u8; 32];
    let mut kb = [0u8; 32];
    let mut kc = [0u8; 32];
    a.squeeze(&mut ka);
    b.squeeze_key(&mut kb);
    c.squeeze_any(&mut kc, 0x20);
    assert_ne!(ka, kb);
    assert_eq!(kb, kc);
}

#[test]
fn test_keyed_material_is_all_absorbed() {
    let mut outs = Vec::new();
    let cases: [(&[u8], Option<&[u8]>, Option<&[u8]>, Option<&[u8]>); 7] = [
        (b"key", None, None, None),
        (b"kez", None, None, None),
        (b"key", Some(b"a"), None, None),
        (b"key", None, Some(b"a"), None),
        (b"key", None, None, Some(b"a")),
        (b"key", None, None, Some(b"")),
        (b"key", Some(b"a"), Some(b"b"), Some(b"cd")),
    ];
    for (key, id, nonce, counter) in cases {
        let mut st = Xoodyak::keyed(key, id, nonce, counter);
        let mut out = [0u8; 16];
        st.squeeze(&mut out);
        outs.push(out);
    }
    for i in 0..outs.len() {
        for j in 0..i {
            if (i, j) == (3, 2) {
                // identifier and nonce are absorbed as one string
                assert_eq!(outs[i], outs[j]);
            } else {
                assert_ne!(outs[i], outs[j]);
            }
        }
    }
    let mut st = Xoodyak::keyed(b"key", Some(b""), Some(b""), None);
    let mut out = [0u8; 16];
    st.squeeze(&mut out);
    assert_eq!(out, outs[0]);
}

#[test]
fn test_keyed_takes_the_longest_key_material() {
    let key = [7u8; 43];
    let mut st = Xoodyak::keyed(&key, None, None, None);
    let mut a = [0u8; 16];
    st.squeeze(&mut a);
    let mut st = Xoodyak::keyed(&key[..20], Some(&key[..10]), Some(&key[..13]), None);
    let mut b = [0u8; 16];
    st.squeeze(&mut b);
    assert_ne!(a, b);
}

#[test]
fn test_encrypt_with_buffers_of_different_length() {
    let m = sample(30, 4);
    let mut full = vec![0u8; 30];
    let mut st = keyed_with_nonce();
    st.encrypt(&m, &mut full);

    let mut short = vec![0u8; 24];
    let mut st = keyed_with_nonce();
    st.encrypt(&m, &mut short);
    assert_eq!(&full[..24], &short[..]);

    let mut long = vec![0x55u8; 60];
    let mut st = keyed_with_nonce();
    st.encrypt(&m[..24], &mut long);
    assert_eq!(&full[..24], &long[..24]);
    assert_eq!(&long[48..], &[0x55u8; 12][..]);

    let mut none = vec![0x55u8; 8];
    let mut st = keyed_with_nonce();
    st.encrypt(&[], &mut none);
    assert_eq!(none, vec![0x55u8; 8]);
}

#[test]
fn test_mode_is_fixed_at_construction() {
    let mut h = Xoodyak::hash();
    assert_eq!(h.mode(), Mode::Hash);
    h.absorb(b"abc");
    let mut out = [0u8; 40];
    h.squeeze(&mut out);
    assert_eq!(h.mode(), Mode::Hash);
    let mut k = keyed_with_nonce();
    assert_eq!(k.mode(), Mode::Keyed);
    k.absorb(b"abc");
    k.ratchet();
    k.encrypt_in_place(&mut out);
    k.squeeze_key(&mut out);
    assert_eq!(k.mode(), Mode::Keyed);
}

#[test]
fn test_clone_continues_alike() {
    let mut a = keyed_with_nonce();
    a.absorb(b"header");
    let mut b = a.clone();
    let mut x = [0u8; 50];
    let mut y = [0u8; 50];
    a.squeeze(&mut x);
    b.squeeze(&mut y);
    assert_eq!(x, y);
}

#[test]
fn test_mode_rates() {
    assert_eq!(Mode::Hash.absorb_rate(), 16);
    assert_eq!(Mode::Hash.squeeze_rate(), 16);
    assert_eq!(Mode::Keyed.absorb_rate(), 44);
    assert_eq!(Mode::Keyed.squeeze_rate(), 24);
}
