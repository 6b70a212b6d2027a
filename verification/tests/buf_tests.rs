use tars::buf::{ProtBuf, ProtBuf8};

#[test]
fn test_basic_dummy() {
    let mut r: [i64; 256] = [0; 256];
    let mut s: [u8; 256] = [0; 256];

    let a: ProtBuf<i64> = ProtBuf::new_zero(256);
    assert_eq!(a.as_slice(), &r[..]);

    for i in 0..256 {
        r[i] = i as i64;
        s[i] = i as u8;
    }

    let b: ProtBuf<i64> = ProtBuf::from_bytes(&s);
    assert_eq!(b.as_slice(), &r[..]);

    let c: ProtBuf<i64> = ProtBuf::from_slice(&r);
    assert_eq!(c.as_slice(), &r[..]);

    let d: ProtBuf<i64> = ProtBuf::from_slice(c.as_slice());
    assert_eq!(d.as_slice(), c.as_slice());

    let e: ProtBuf<i64> = ProtBuf::from_slice(&r);
    assert!(d == e);
}

#[test]
fn test_basic_guarded() {
    let mut r: [i64; 256] = [0; 256];
    let mut s: [u8; 256] = [0; 256];

    let a: ProtBuf<i64> = ProtBuf::new_zero(256);
    assert_eq!(a.as_slice(), &r[..]);

    for i in 0..256 {
        r[i] = i as i64;
        s[i] = i as u8;
    }

    let b: ProtBuf<i64> = ProtBuf::from_bytes(&s);
    assert_eq!(b.as_slice(), &r[..]);

    let c: ProtBuf<i64> = ProtBuf::from_slice(&r);
    assert_eq!(c.as_slice(), &r[..]);

    let d: ProtBuf<i64> = ProtBuf::from_slice(c.as_slice());
    assert_eq!(d.as_slice(), c.as_slice());

    let e: ProtBuf<i64> = ProtBuf::from_slice(&r);
    assert!(d == e);
}

#[test]
fn buf_test_default_params() {
    let _: ProtBuf8 = ProtBuf::new_zero(42);
    let _: ProtBuf<u8> = ProtBuf::new_zero(42);
}

#[test]
fn lengths_in_elements_and_bytes() {
    let a: ProtBuf<i64> = ProtBuf::new(5);
    assert_eq!(a.len(), 5);
    assert_eq!(a.len_bytes(), 40);
    let b: ProtBuf8 = ProtBuf::new(5);
    assert_eq!(b.len_bytes(), 5);
    let c: ProtBuf<u64> = ProtBuf::new(0);
    assert_eq!(c.len(), 0);
    assert_eq!(c.len_bytes(), 0);
    assert_eq!(a.as_slice(), &[0i64; 5][..]);
}

#[test]
fn set_then_get() {
    let mut a: ProtBuf8 = ProtBuf::new_zero(300);
    for i in 0..300 {
        a.set(i, (i % 256) as u8);
    }
    for i in 0..300 {
        assert_eq!(a.get(i), (i % 256) as u8);
    }
}

#[test]
fn concatenation() {
    let x: [u8; 3] = [1, 2, 3];
    let y: [u8; 0] = [];
    let z: [u8; 2] = [9, 8];
    let a: ProtBuf8 = ProtBuf::from_slices(&[&x[..], &y[..], &z[..]]);
    assert_eq!(a.as_slice(), &[1, 2, 3, 9, 8][..]);
    let none: ProtBuf8 = ProtBuf::from_slices(&[]);
    assert_eq!(none.len(), 0);
    let b: ProtBuf8 = ProtBuf::from_slice(&z);
    let joined = ProtBuf::from_bufs(&[&a, &b, &a]);
    assert_eq!(joined.as_slice(), &[1, 2, 3, 9, 8, 9, 8, 1, 2, 3, 9, 8][..]);
}

#[test]
fn random_bytes_spell_the_elements() {
    let random: [u8; 16] = [1, 0, 0, 0, 0, 0, 0, 0, 0xff, 0xff, 0xff, 0xff, 0xff, 0xff, 0xff, 0xff];
    let bytes: ProtBuf8 = ProtBuf::new_rand(16, &random);
    assert_eq!(bytes.as_slice(), &random[..]);
    let words: ProtBuf<u64> = ProtBuf::new_rand(2, &random);
    assert_eq!(words.as_slice(), &[1u64, u64::MAX][..]);
    let signed: ProtBuf<i64> = ProtBuf::new_rand(2, &random);
    assert_eq!(signed.as_slice(), &[1i64, -1][..]);
    let drawn: ProtBuf<u64> = ProtBuf::new_rand_os(8).unwrap();
    assert_eq!(drawn.len(), 8);
}

#[test]
fn clone_is_deep_and_equal() {
    let mut a: ProtBuf8 = ProtBuf::from_slice(&[5, 6, 7]);
    let b = a.clone();
    assert!(a == b);
    a.set(1, 0);
    assert!(a != b);
    assert_eq!(b.as_slice(), &[5, 6, 7][..]);
    let shorter: ProtBuf8 = ProtBuf::from_slice(&[5, 6]);
    assert!(b != shorter);
}

#[test]
fn elements_from_bytes() {
    let a: ProtBuf<u64> = ProtBuf::from_bytes(&[0, 1, 255]);
    assert_eq!(a.as_slice(), &[0u64, 1, 255][..]);
    let b: ProtBuf8 = ProtBuf::from_bytes(&[0, 1, 255]);
    assert_eq!(b.as_slice(), &[0u8, 1, 255][..]);
    let c: ProtBuf<i64> = ProtBuf::from_bytes(&[200]);
    assert_eq!(c.get(0), 200);
}

#[test]
fn casts_between_elements_of_one_alignment() {
    let signed: ProtBuf<i64> = ProtBuf::from_slice(&[-1, 0, 5, i64::MIN]);
    let words: ProtBuf<u64> = signed.cast::<u64>().unwrap();
    assert_eq!(words.as_slice(), &[u64::MAX, 0, 5, 1 << 63][..]);
    let back: ProtBuf<i64> = words.cast::<i64>().unwrap();
    assert!(back == signed);
    let bytes: ProtBuf8 = ProtBuf::from_slice(&[1, 2, 3]);
    assert!(bytes.cast::<u8>().unwrap() == bytes);
    // Bytes are not aligned like words, and nothing is cast from an empty buffer.
    assert!(bytes.cast::<u64>().is_none());
    assert!(signed.cast::<u8>().is_none());
    let empty: ProtBuf<u64> = ProtBuf::new(0);
    assert!(empty.cast::<i64>().is_none());
}

#[test]
fn the_drawn_buffer_of_no_elements_is_always_had() {
    let bytes: ProtBuf<u8> = ProtBuf::new_rand_os(0).unwrap();
    assert_eq!(bytes.len(), 0);
    assert!(bytes.as_slice().is_empty());
    let words: ProtBuf<u64> = ProtBuf::new_rand_os(0).unwrap();
    assert_eq!(words.len_bytes(), 0);
    assert!(words == ProtBuf::new_zero(0));
}
