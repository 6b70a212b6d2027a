use tars::fault::Fault;
use tars::mmap::{
    allocate, allocate_at, deallocate, is_page_size, mask_pointer, page_mask, page_round,
    pow2_below, protect, Mapping, Prot, Protection, RangePos, Unmapping, MIN_ALIGN,
};

#[test]
fn valid_page_sizes() {
    for ps in [4096, 8192, 16384, 32768, 65536] {
        assert!(is_page_size(ps));
    }
    for ps in [0, 1, 2048, 4095, 4097, 12288, 131072] {
        assert!(!is_page_size(ps));
    }
}

#[test]
fn powers_of_two_below_the_page_size() {
    let mut p = 1;
    while p < 4096 {
        assert!(pow2_below(p, 4096));
        p *= 2;
    }
    assert!(!pow2_below(4096, 4096));
    assert!(pow2_below(4096, 8192));
    assert!(pow2_below(32768, 65536));
    for a in [0, 3, 5, 6, 7, 48, 100, 4095, 8192, usize::MAX] {
        assert!(!pow2_below(a, 4096));
    }
}

#[test]
fn masks_and_rounding() {
    assert_eq!(page_mask(4096), 4095);
    assert_eq!(page_mask(65536), 65535);
    assert_eq!(mask_pointer(0, 4096), 0);
    assert_eq!(mask_pointer(4095, 4096), 0);
    assert_eq!(mask_pointer(4096, 4096), 4096);
    assert_eq!(mask_pointer(0x12345, 4096), 0x12000);
    assert_eq!(mask_pointer(0x12345, 65536), 0x10000);
    assert_eq!(mask_pointer(usize::MAX, 8192), usize::MAX - 8191);

    assert_eq!(page_round(0, 4096), Some(0));
    assert_eq!(page_round(1, 4096), Some(4096));
    assert_eq!(page_round(4096, 4096), Some(4096));
    assert_eq!(page_round(4097, 4096), Some(8192));
    assert_eq!(page_round(5000, 16384), Some(16384));
    assert_eq!(page_round(usize::MAX - 4095, 4096), Some(usize::MAX - 4095));
    assert_eq!(page_round(usize::MAX - 4094, 4096), None);
    assert_eq!(page_round(usize::MAX, 4096), None);
}

#[test]
fn mapping_plans() {
    assert_eq!(MIN_ALIGN, 16);
    let fill = Some(0xd0);
    assert_eq!(
        allocate_at(42, 0, fill, Prot::ReadWrite, RangePos::Start, 4096, 7),
        Ok(Mapping {
            full_size: 3 * 4096,
            region_size: 4096,
            offset: 0,
            prot: Prot::ReadWrite,
            fill,
            lock: true,
        })
    );
    // At the end: as far up as a multiple of 16 goes.
    assert_eq!(
        allocate_at(100, 0, None, Prot::Write, RangePos::End, 4096, 7),
        Ok(Mapping {
            full_size: 3 * 4096,
            region_size: 4096,
            offset: 3984,
            prot: Prot::Write,
            fill: None,
            lock: true,
        })
    );
    assert_eq!(allocate_at(5000, 0, None, Prot::Write, RangePos::End, 4096, 0).unwrap().offset, 3184);
    assert_eq!(allocate_at(100, 256, None, Prot::Write, RangePos::End, 4096, 0).unwrap().offset, 3840);
    assert_eq!(allocate_at(100, 8, None, Prot::Write, RangePos::End, 4096, 0).unwrap().offset, 3984);
    assert_eq!(allocate_at(4096, 0, None, Prot::Write, RangePos::End, 4096, 0).unwrap().offset, 0);
    // An empty request maps the guard pages alone.
    assert_eq!(
        allocate_at(0, 0, None, Prot::NoAccess, RangePos::End, 4096, 0),
        Ok(Mapping {
            full_size: 2 * 4096,
            region_size: 0,
            offset: 0,
            prot: Prot::NoAccess,
            fill: None,
            lock: true,
        })
    );
    // At random: the place drawn, in steps of the alignment.
    assert_eq!(allocate_at(96, 0, None, Prot::Read, RangePos::Rand, 4096, 3).unwrap().offset, 48);
    assert_eq!(allocate_at(96, 64, None, Prot::Read, RangePos::Rand, 4096, 3).unwrap().offset, 192);
    // 250 places of 16 bytes are left after 96 bytes; the last is not drawn.
    assert_eq!(allocate_at(96, 0, None, Prot::Read, RangePos::Rand, 4096, 249).unwrap().offset, 3984);
    assert_eq!(allocate_at(96, 0, None, Prot::Read, RangePos::Rand, 4096, 250).unwrap().offset, 0);
    assert_eq!(allocate_at(96, 0, None, Prot::Read, RangePos::Rand, 8192, 250).unwrap().offset, 4000);

    for _ in 0..200 {
        let plan = allocate(1000, 32, None, Prot::ReadWrite, RangePos::Rand, 4096).unwrap();
        assert_eq!(plan.offset % 32, 0);
        assert!(plan.offset + 1000 <= 4096);
        assert_eq!(plan.region_size, 4096);
    }
    assert_eq!(
        allocate(9000, 0, None, Prot::ReadWrite, RangePos::Start, 4096),
        allocate_at(9000, 0, None, Prot::ReadWrite, RangePos::Start, 4096, 0)
    );
    assert_eq!(allocate(9000, 0, None, Prot::ReadWrite, RangePos::Start, 4096).unwrap().full_size, 5 * 4096);
}

#[test]
fn refused_mapping_plans() {
    let plan = |size, align| allocate_at(size, align, None, Prot::ReadWrite, RangePos::Start, 4096, 0);
    assert_eq!(plan(usize::MAX, 0), Err(Fault::Overflow));
    assert_eq!(plan(usize::MAX - 4095, 0), Err(Fault::Overflow));
    assert_eq!(plan(usize::MAX - 3 * 4096, 0), Err(Fault::Overflow));
    assert_eq!(plan(isize::MAX as usize, 0), Err(Fault::Overflow));
    assert_eq!(plan(isize::MAX as usize - 3 * 4096, 0).map(|m| m.offset), Ok(0));
    assert_eq!(plan(42, 3), Err(Fault::Alignment));
    assert_eq!(plan(42, 4096), Err(Fault::Alignment));
    assert_eq!(plan(42, 8192), Err(Fault::Alignment));
    assert_eq!(plan(usize::MAX, 3), Err(Fault::Overflow));
    assert!(plan(42, 2048).is_ok());
    assert_eq!(
        allocate(42, 3, None, Prot::ReadWrite, RangePos::Rand, 4096),
        Err(Fault::Alignment)
    );
}

#[test]
fn unmapping_plans() {
    assert_eq!(deallocate(0, 42, Some(0), 4096), Ok(None));
    assert_eq!(
        deallocate(0x20_0fa0, 96, Some(0xdf), 4096),
        Ok(Some(Unmapping {
            region: 0x20_0000,
            region_size: 4096,
            start: 0x1f_f000,
            full_size: 3 * 4096,
            fill: Some(0xdf),
            unlock: true,
        }))
    );
    assert_eq!(
        deallocate(0x20_0000, 0, None, 4096),
        Ok(Some(Unmapping {
            region: 0x20_0000,
            region_size: 0,
            start: 0x1f_f000,
            full_size: 2 * 4096,
            fill: None,
            unlock: true,
        }))
    );
    assert_eq!(deallocate(100, 42, None, 4096), Err(Fault::Mapping));
    assert_eq!(deallocate(0x20_0000, usize::MAX, None, 4096), Err(Fault::Overflow));
    assert_eq!(deallocate(0x20_0000, usize::MAX - 8191, None, 4096), Err(Fault::Overflow));
}

#[test]
fn protection_plans() {
    assert_eq!(protect(0, 42, Prot::Read, 4096), Ok(None));
    assert_eq!(
        protect(0x20_0fa0, 96, Prot::Read, 4096),
        Ok(Some(Protection { addr: 0x20_0000, len: 4096, prot: Prot::Read }))
    );
    assert_eq!(
        protect(0x20_0000, 4097, Prot::NoAccess, 4096),
        Ok(Some(Protection { addr: 0x20_0000, len: 8192, prot: Prot::NoAccess }))
    );
    assert_eq!(protect(0x20_0000, usize::MAX, Prot::Write, 4096), Err(Fault::Overflow));
}
