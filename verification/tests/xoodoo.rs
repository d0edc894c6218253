use xoodoo::bytes::{copy_into, xor_into};
use xoodoo::Xoodoo;

#[test]
fn test_r12_x8_eq_x1() {
    let mut x1_out = [0; 48];
    let mut x1 = Xoodoo::<1, 12>::default();
    x1.permute();
    x1.extract_bytes(0, &mut x1_out);

    let mut x8_out = [0; 48];
    let mut x8 = Xoodoo::<8, 12>::default();
    x8.permute();
    for i in 0..8 {
        x8.extract_bytes(i, &mut x8_out);
        println!("i {}", i);
        assert_eq!(x1_out, x8_out);
    }
}

#[test]
fn test_r6_x8_eq_x1() {
    let mut x1_out = [0; 48];
    let mut x1 = Xoodoo::<1, 6>::default();
    x1.permute();
    x1.extract_bytes(0, &mut x1_out);

    let mut x8_out = [0; 48];
    let mut x8 = Xoodoo::<8, 6>::default();
    x8.permute();
    for i in 0..8 {
        x8.extract_bytes(i, &mut x8_out);
        println!("i {}", i);
        assert_eq!(x1_out, x8_out);
    }
}

fn seed(lane: usize) -> [u8; 48] {
    let mut s = [0u8; 48];
    let mut x = (lane as u8).wrapping_mul(29).wrapping_add(1);
    for b in s.iter_mut() {
        x = x.wrapping_mul(73).wrapping_add(41);
        *b = x;
    }
    s
}

#[test]
fn test_r12_x8_eq_x1_on_seeded_lanes() {
    let mut x8 = Xoodoo::<8, 12>::default();
    for lane in 0..8 {
        x8.add_bytes(lane, &seed(lane), 0);
    }
    x8.permute();
    x8.permute();
    for lane in 0..8 {
        let mut x1 = Xoodoo::<1, 12>::default();
        x1.add_bytes(0, &seed(lane), 0);
        x1.permute();
        x1.permute();
        let mut a = [0u8; 48];
        let mut b = [0u8; 48];
        x1.extract_bytes(0, &mut a);
        x8.extract_bytes(lane, &mut b);
        assert_eq!(a, b);
    }
}

#[test]
fn test_r6_x8_eq_x1_on_seeded_lanes() {
    let mut x8 = Xoodoo::<8, 6>::default();
    for lane in 0..8 {
        x8.add_bytes(lane, &seed(lane), 0);
    }
    x8.permute();
    x8.permute();
    for lane in 0..8 {
        let mut x1 = Xoodoo::<1, 6>::default();
        x1.add_bytes(0, &seed(lane), 0);
        x1.permute();
        x1.permute();
        let mut a = [0u8; 48];
        let mut b = [0u8; 48];
        x1.extract_bytes(0, &mut a);
        x8.extract_bytes(lane, &mut b);
        assert_eq!(a, b);
    }
}

#[test]
fn test_twelve_rounds_on_the_zero_state() {
    let words: [u32; 12] = [
        0x89d5d88d, 0xa963fcbf, 0x1b232d19, 0xffa5a014, 0x36b18106, 0xafc7c1fe, 0xaee57cbe,
        0xa77540bd, 0x2e86e870, 0xfef5b7c9, 0x8b4fadf2, 0x5e4f4062,
    ];
    let mut expected = [0u8; 48];
    for (i, w) in words.iter().enumerate() {
        expected[4 * i..4 * i + 4].copy_from_slice(&w.to_le_bytes());
    }
    let mut x = Xoodoo::<1, 12>::default();
    x.permute();
    let mut out = [0u8; 48];
    x.extract_bytes(0, &mut out);
    assert_eq!(out, expected);
}

#[test]
fn test_no_rounds_is_the_identity() {
    let mut x = Xoodoo::<1, 0>::default();
    x.add_bytes(0, &seed(3), 0);
    x.permute();
    let mut out = [0u8; 48];
    x.extract_bytes(0, &mut out);
    assert_eq!(out, seed(3));
}

#[test]
fn test_one_round_on_the_zero_state() {
    // Only iota and chi act on the zero state: word 0 of plane A becomes the
    // round constant 0x12, chi copies it into plane B, and rho-east rotates
    // that word by one bit.
    let mut x = Xoodoo::<1, 1>::default();
    x.permute();
    let mut out = [0u8; 48];
    x.extract_bytes(0, &mut out);
    let mut expected = [0u8; 48];
    expected[0] = 0x12;
    expected[16] = 0x24;
    assert_eq!(out, expected);
}

#[test]
fn test_six_rounds_differ_from_twelve() {
    let mut six = Xoodoo::<1, 6>::default();
    let mut twelve = Xoodoo::<1, 12>::default();
    six.permute();
    twelve.permute();
    let mut a = [0u8; 48];
    let mut b = [0u8; 48];
    six.extract_bytes(0, &mut a);
    twelve.extract_bytes(0, &mut b);
    assert_ne!(a, b);
}

#[test]
fn test_default_is_zero() {
    let mut x = Xoodoo::<8, 12>::default();
    for lane in 0..8 {
        let mut out = [0xffu8; 48];
        x.extract_bytes(lane, &mut out);
        assert_eq!(out, [0u8; 48]);
    }
}

#[test]
fn test_add_bytes_xors_at_the_offset() {
    let mut x = Xoodoo::<1, 12>::default();
    x.add_bytes(0, &[0x01, 0x02, 0x03], 5);
    x.add_bytes(0, &[0xff, 0x10], 6);
    x.add_bytes(0, &[0x80], 47);
    x.add_bytes(0, &[], 48);
    let mut out = [0u8; 48];
    x.extract_bytes(0, &mut out);
    let mut expected = [0u8; 48];
    expected[5] = 0x01;
    expected[6] = 0x02 ^ 0xff;
    expected[7] = 0x03 ^ 0x10;
    expected[47] = 0x80;
    assert_eq!(out, expected);
}

#[test]
fn test_add_bytes_touches_one_lane_only() {
    let mut x = Xoodoo::<8, 6>::default();
    x.add_bytes(3, &seed(3), 0);
    for lane in 0..8 {
        let mut out = [0u8; 48];
        x.extract_bytes(lane, &mut out);
        if lane == 3 {
            assert_eq!(out, seed(3));
        } else {
            assert_eq!(out, [0u8; 48]);
        }
    }
}

#[test]
fn test_extract_bytes_takes_a_prefix() {
    let mut x = Xoodoo::<1, 12>::default();
    x.add_bytes(0, &seed(1), 0);
    let mut out = [0u8; 17];
    x.extract_bytes(0, &mut out);
    assert_eq!(&out[..], &seed(1)[..17]);
    let mut none: [u8; 0] = [];
    x.extract_bytes(0, &mut none);
    let mut again = [0u8; 48];
    x.extract_bytes(0, &mut again);
    assert_eq!(again, seed(1));
}

#[test]
fn test_bytes_are_little_endian_words() {
    let mut x = Xoodoo::<1, 1>::default();
    x.add_bytes(0, &[0x01], 3);
    x.permute();
    let mut y = Xoodoo::<1, 1>::default();
    y.add_bytes(0, &[0x01], 0);
    y.permute();
    let mut a = [0u8; 48];
    let mut b = [0u8; 48];
    x.extract_bytes(0, &mut a);
    y.extract_bytes(0, &mut b);
    assert_ne!(a, b);
    // One round on the state whose only set bit is bit 24 of word 0: theta
    // leaves column 0 alone and adds rotl(0x01000000, 5) ^ rotl(0x01000000, 14)
    // to every word of column 1; iota adds the round constant 0x12 to word 0.
    let e: u32 = 0x01000000u32.rotate_left(5) ^ 0x01000000u32.rotate_left(14);
    let a0: u32 = 0x01000000 ^ 0x12;
    let a1: u32 = e;
    // plane B after rho-west holds e in word 2, plane C holds rotl(e, 11) in word 1
    let c1: u32 = e.rotate_left(11);
    let a1x = a1 ^ (!0u32 & c1);
    assert_eq!(&a[0..4], &(a0.to_le_bytes())[..]);
    assert_eq!(&a[4..8], &(a1x.to_le_bytes())[..]);
}

#[test]
fn test_zeroize_clears_every_lane() {
    let mut x = Xoodoo::<8, 12>::default();
    for lane in 0..8 {
        x.add_bytes(lane, &seed(lane), 0);
    }
    x.permute();
    x.zeroize();
    for lane in 0..8 {
        let mut out = [0xffu8; 48];
        x.extract_bytes(lane, &mut out);
        assert_eq!(out, [0u8; 48]);
    }
}

#[test]
fn test_clone_keeps_the_state() {
    let mut x = Xoodoo::<1, 12>::default();
    x.add_bytes(0, &seed(5), 0);
    let mut y = x.clone();
    x.permute();
    y.permute();
    let mut a = [0u8; 48];
    let mut b = [0u8; 48];
    x.extract_bytes(0, &mut a);
    y.extract_bytes(0, &mut b);
    assert_eq!(a, b);
}

#[test]
fn test_copy_into_and_xor_into() {
    let mut buf = [9u8; 6];
    copy_into(&mut buf, 2, &[1, 2, 3]);
    assert_eq!(buf, [9, 9, 1, 2, 3, 9]);
    xor_into(&mut buf, 1, &[0xff, 0x0f, 0xf0, 0x01], 1, 3);
    assert_eq!(buf, [9, 9 ^ 0x0f, 1 ^ 0xf0, 2 ^ 0x01, 3, 9]);
    copy_into(&mut buf, 6, &[]);
    xor_into(&mut buf, 0, &[], 0, 0);
    assert_eq!(buf, [9, 9 ^ 0x0f, 1 ^ 0xf0, 2 ^ 0x01, 3, 9]);
}
