use xoodoo::{Tag, AUTH_TAG_BYTES};

#[test]
fn test_verify_accepts_the_same_bytes() {
    let bytes: [u8; 16] = [1, 2, 3, 4, 5, 6, 7, 8, 9, 10, 11, 12, 13, 14, 15, 16];
    let tag = Tag::from(bytes);
    assert!(tag.verify(bytes).is_ok());
    assert_eq!(AUTH_TAG_BYTES, 16);
}

#[test]
fn test_verify_rejects_every_single_bit_flip() {
    let bytes: [u8; 16] = [1, 2, 3, 4, 5, 6, 7, 8, 9, 10, 11, 12, 13, 14, 15, 16];
    let tag = Tag::from(bytes);
    for i in 0..16 {
        for bit in 0..8 {
            let mut other = bytes;
            other[i] ^= 1 << bit;
            let r = tag.verify(other);
            assert!(r.is_err());
        }
    }
}

#[test]
fn test_mismatch_message() {
    let tag = Tag::from([0u8; 16]);
    match tag.verify([1u8; 16]) {
        Ok(()) => panic!("accepted"),
        Err(e) => assert_eq!(e.message(), "tag verification failed."),
    }
}

#[test]
fn test_tag_equality() {
    let a = Tag::from([7u8; 16]);
    let b = Tag::from([7u8; 16]);
    let mut last = [7u8; 16];
    last[15] = 6;
    let c = Tag::from(last);
    assert!(a == b);
    assert!(a != c);
    assert!(a.clone() == a);
}

#[test]
fn test_tag_default_is_zero() {
    let tag = Tag::default();
    assert_eq!(tag.as_ref(), &[0u8; 16][..]);
    assert!(tag.verify([0u8; 16]).is_ok());
}

#[test]
fn test_tag_conversions() {
    let bytes: [u8; 16] = [9, 8, 7, 6, 5, 4, 3, 2, 1, 0, 1, 2, 3, 4, 5, 6];
    let mut tag = Tag::from(bytes);
    assert_eq!(tag.as_ref(), &bytes[..]);
    tag.as_mut()[0] = 0xff;
    let back: [u8; 16] = tag.into();
    let mut expected = bytes;
    expected[0] = 0xff;
    assert_eq!(back, expected);
}

#[test]
fn test_tag_zeroize() {
    let mut tag = Tag::from([0xabu8; 16]);
    tag.zeroize();
    assert_eq!(tag.as_ref(), &[0u8; 16][..]);
}
