use tars::buf::ProtBuf;
use tars::key::{ProtKey, ProtKey8};
use tars::mmap::Prot;

#[test]
fn test_read() {
    let s1 = ProtBuf::<u8>::new_rand_os(256).unwrap();
    let s2 = s1.clone();

    let mut key = ProtKey::new(s1);

    {
        let r = key.read();
        assert_eq!(key.buf(&r).as_slice(), s2.as_slice());
        assert_eq!(&key.buf(&r).as_slice()[..], &s2.as_slice()[..]);
        assert!(*key.buf(&r) == s2);
        key.end_read(r);
    }

    {
        let r1 = key.read();
        let r2 = key.try_read().unwrap();
        assert!(key.buf(&r1) == key.buf(&r2));

        assert!(key.try_write().is_none());

        let r3 = r1.clone_it(&mut key);
        assert!(key.buf(&r3) == key.buf(&r2));
        key.end_read(r3);
        key.end_read(r2);
        key.end_read(r1);
    }

    key.read_with(|k, lease| {
        assert_eq!(k.readers(), 1);
        assert_eq!(k.protection(), Prot::Read);
        assert_eq!(k.buf(lease).as_slice(), s2.as_slice());
    });
    assert_eq!(key.readers(), 0);
    assert_eq!(key.protection(), Prot::NoAccess);

    assert!(key.try_write().is_some());
}

#[test]
fn test_write() {
    let zero = ProtBuf::<u8>::new_zero(256);
    let mut key = ProtBuf::<u8>::new_rand_os(256).unwrap().into_key();

    {
        let mut w = key.write();
        for i in 0..256 {
            key.set(&mut w, i, 0);
        }
        key.end_write(w);
    }
    {
        let r = key.read();
        assert!(*key.buf(&r) == zero);
        key.end_read(r);
    }

    {
        let w = key.write();
        assert!(key.try_write().is_none());
        assert!(key.try_read().is_none());
        key.end_write(w);
    }

    let mut c = 0_usize;
    key.write_with(|mut k, mut lease| {
        assert!(k.is_writing());
        assert_eq!(k.protection(), Prot::Write);
        k.set(&mut lease, 42, 42);
        c = 1;
        (k, lease)
    });
    assert_eq!(c, 1);
    assert_eq!(key.protection(), Prot::NoAccess);
    {
        let r = key.read();
        assert_eq!(key.buf(&r).len(), 256);
        assert_eq!(key.buf(&r).get(42), 42);
        assert_eq!(key.buf(&r).get(41), 0);
        key.end_read(r);
    }

    {
        let w = key.try_write();
        assert!(w.is_some());
        key.end_write(w.unwrap());
    }
    assert!(key.try_read().is_some());
}

#[test]
fn key_test_default_params() {
    let b = ProtBuf::new_zero(42);
    let _: ProtKey8 = ProtKey::new(b);
    let b = ProtBuf::new_zero(42);
    let _: ProtKey<u8> = ProtKey::new(b);
}

#[test]
fn leases_and_protection() {
    let mut key: ProtKey8 = ProtBuf::from_slice(&[1, 2, 3]).into_key();
    assert_eq!(key.protection(), Prot::NoAccess);
    assert_eq!(key.readers(), 0);
    assert!(!key.is_writing());

    let r1 = key.try_read().unwrap();
    assert_eq!(key.protection(), Prot::Read);
    let r2 = key.read();
    assert_eq!(key.readers(), 2);
    assert!(key.try_write().is_none());
    key.end_read(r1);
    assert_eq!(key.protection(), Prot::Read);
    key.end_read(r2);
    assert_eq!(key.protection(), Prot::NoAccess);
    assert_eq!(key.readers(), 0);

    let w = key.try_write().unwrap();
    assert_eq!(key.protection(), Prot::Write);
    assert!(key.is_writing());
    assert!(key.try_read().is_none());
    assert!(key.try_write().is_none());
    key.end_write(w);
    assert_eq!(key.protection(), Prot::NoAccess);
    assert!(key.try_read().is_some());
}

#[test]
fn key_lease_scenario() {
    let mut k: ProtKey8 = ProtBuf::new_rand_os(32).unwrap().into_key();
    {
        let r1 = k.read();
        let r2 = k.try_read().unwrap();
        assert!(k.try_write().is_none());
        k.end_read(r2);
        k.end_read(r1);
    }
    assert!(k.try_write().is_some());
}

#[test]
fn keys_compare_and_copy() {
    let mut a: ProtKey8 = ProtBuf::from_slice(&[1, 2, 3]).into_key();
    let mut b = ProtKey::from_buf(ProtBuf::from_slice(&[1, 2, 3]));
    let mut c: ProtKey8 = ProtBuf::from_slice(&[1, 2, 4]).into_key();
    assert!(a.equals(&mut b));
    assert!(!a.equals(&mut c));
    assert_eq!(a.readers(), 0);
    assert_eq!(b.protection(), Prot::NoAccess);
    let mut d = a.duplicate();
    assert!(d.equals(&mut a));
    let w = c.write();
    assert!(!c.equals(&mut a));
    assert!(!a.equals(&mut c));
    c.end_write(w);
    assert!(!c.equals(&mut a));
}

#[test]
fn a_key_gives_its_buffer_back() {
    let mut key: ProtKey8 = ProtBuf::from_slice(&[9, 8, 7]).into_key();
    let mut w = key.write();
    key.set(&mut w, 1, 0);
    key.end_write(w);
    assert!(key.readers() == 0 && !key.is_writing());
    let buf = key.into_buf();
    assert_eq!(buf.as_slice(), &[9, 0, 7][..]);
}
