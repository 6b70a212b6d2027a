use tars::utils::{byte_eq, bytes_eq, gen_range, os_random_bytes, os_random_word, word_of_bytes};

#[test]
fn test_byte_eq() {
    for _ in 0_usize..256 {
        let a: u8 = rand::random();
        let b: u8 = rand::random();
        assert_eq!(byte_eq(a, b) == 1, a == b);
    }
}

#[test]
fn test_bytes_eq() {
    let a: [u8; 64] = [0u8; 64];
    let b: [u8; 64] = [0u8; 64];
    assert!(bytes_eq(&a, &b));

    for _ in 0_usize..256 {
        let va: Vec<u8> = (0_usize..64).map(|_| rand::random::<u8>()).collect();
        let vb: Vec<u8> = (0_usize..64).map(|_| rand::random::<u8>()).collect();
        assert_eq!(bytes_eq(&va, &vb), va == vb);
    }
}

#[test]
fn byte_eq_on_every_pair() {
    for a in 0..=255u8 {
        for b in 0..=255u8 {
            assert_eq!(byte_eq(a, b), if a == b { 1 } else { 0 });
        }
    }
}

#[test]
fn bytes_eq_tells_length_and_content() {
    let x: [u8; 4] = [1, 2, 3, 4];
    assert!(bytes_eq(&x, &[1, 2, 3, 4]));
    assert!(!bytes_eq(&x, &[1, 2, 3]));
    assert!(!bytes_eq(&x, &[1, 2, 3, 5]));
    assert!(!bytes_eq(&x, &[0, 2, 3, 4]));
    let empty: [u8; 0] = [];
    assert!(bytes_eq(&empty, &empty));
    let wide: [i64; 3] = [-1, 0, i64::MAX];
    assert!(bytes_eq(&wide, &[-1, 0, i64::MAX]));
    assert!(!bytes_eq(&wide, &[-1, 0, i64::MIN]));
    let words: [u64; 2] = [1 << 40, 7];
    assert!(bytes_eq(&words, &[1 << 40, 7]));
    assert!(!bytes_eq(&words, &[1 << 41, 7]));
}

#[test]
fn gen_range_stays_in_range() {
    assert_eq!(gen_range(5, 5), 5);
    assert_eq!(gen_range(0, 1), 0);
    let mut seen = [false; 4];
    for _ in 0..400 {
        let r = gen_range(10, 14);
        assert!(10 <= r && r < 14);
        seen[r - 10] = true;
    }
    assert!(seen.iter().all(|s| *s));
}

#[test]
fn os_randomness_has_the_length_asked_for() {
    let bytes = os_random_bytes(48).unwrap();
    assert_eq!(bytes.len(), 48);
    assert!(bytes.iter().any(|b| *b != 0));
    assert_eq!(os_random_bytes(0).unwrap().len(), 0);
    let a = os_random_word().unwrap();
    let b = os_random_word().unwrap();
    let c = os_random_word().unwrap();
    assert!(a != b || b != c);
}

#[test]
fn a_word_is_spelt_least_significant_byte_first() {
    assert_eq!(word_of_bytes(&[0; 8]), 0);
    assert_eq!(word_of_bytes(&[1, 0, 0, 0, 0, 0, 0, 0]), 1);
    assert_eq!(word_of_bytes(&[0, 1, 0, 0, 0, 0, 0, 0]), 256);
    assert_eq!(word_of_bytes(&[0x78, 0x56, 0x34, 0x12, 0, 0, 0, 0]), 0x1234_5678);
    assert_eq!(
        word_of_bytes(&[1, 2, 3, 4, 5, 6, 7, 8]),
        0x0807_0605_0403_0201_u64 as usize
    );
    assert_eq!(word_of_bytes(&[0xff; 8]), usize::MAX);
}

#[test]
fn no_bytes_are_always_had() {
    for _ in 0..16 {
        assert_eq!(os_random_bytes(0), Some(Vec::new()));
    }
}
