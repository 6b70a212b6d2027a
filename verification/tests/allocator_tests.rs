use tars::allocator::{
    Allocator, DefaultBufferAllocator, DefaultKeyAllocator, KeyAllocator, ProtectedBufferAllocator,
    ProtectedKeyAllocator,
};
use tars::state::{AllocStep, MapRequest};
use tars::fault::Fault;
use tars::malloc::ThreadDir;
use tars::mmap::{Prot, RangePos};
use tars::region::Effect;

fn request<A: Allocator>(dir: &mut ThreadDir, size: usize, page: usize) -> (MapRequest, usize) {
    let wanted = match A::allocate(dir, size, 0, None) {
        Ok(AllocStep::NeedMap(wanted)) => wanted,
        _ => panic!("no pages asked for"),
    };
    let ptr = page + if wanted.pos == RangePos::End { (4096 - size) & !15 } else { 0 };
    match A::allocate(dir, size, 0, Some(ptr)) {
        Ok(AllocStep::Done { ptr: served, .. }) => (wanted, served),
        _ => panic!("not served"),
    }
}

#[test]
fn buffers_go_to_chunks() {
    let mut dir = ThreadDir::new(4096, 0x1000).unwrap();
    let (wanted, ptr) = request::<ProtectedBufferAllocator>(&mut dir, 100, 0x50_0000);
    assert_eq!(wanted.size, 4096);
    assert_eq!(wanted.prot, Prot::ReadWrite);
    assert_eq!(wanted.pos, RangePos::Start);
    assert_eq!(ptr & !4095, 0x50_0000);
    assert_eq!(ptr % 128, 0);
    assert_eq!(
        ProtectedBufferAllocator::deallocate(&mut dir, ptr, 100, 0),
        Ok(vec![
            Effect::Fill { ptr, size: 128, byte: 0xdf },
            Effect::Protect { ptr: 0x50_0000, size: 4096, prot: Prot::NoAccess },
        ])
    );
    let (_, again) = {
        match DefaultBufferAllocator::allocate(&mut dir, 100, 0, None) {
            Ok(AllocStep::Done { ptr, .. }) => ((), ptr),
            _ => panic!("the cached page is not reused"),
        }
    };
    assert_eq!(again & !4095, 0x50_0000);
}

#[test]
fn keys_get_pages_of_their_own() {
    let mut dir = ThreadDir::new(4096, 0x1000).unwrap();
    let (wanted, ptr) = request::<ProtectedKeyAllocator>(&mut dir, 96, 0x60_0000);
    assert_eq!(wanted.size, 96);
    assert_eq!(wanted.prot, Prot::Write);
    assert_eq!(wanted.pos, RangePos::End);
    assert_eq!(ptr, 0x60_0000 + 4000);
    assert_eq!(
        ProtectedKeyAllocator::protect_read(&mut dir, ptr, 96),
        Ok(vec![Effect::Protect { ptr, size: 96, prot: Prot::Read }])
    );
    assert_eq!(
        DefaultKeyAllocator::protect_write(&mut dir, ptr, 96),
        Ok(vec![Effect::Protect { ptr, size: 96, prot: Prot::Write }])
    );
    assert_eq!(
        ProtectedKeyAllocator::protect_none(&mut dir, ptr, 96),
        Ok(vec![Effect::Protect { ptr, size: 96, prot: Prot::NoAccess }])
    );
    assert_eq!(ProtectedKeyAllocator::protect_none(&mut dir, ptr + 16, 96), Err(Fault::UnknownPointer));
    assert_eq!(
        ProtectedKeyAllocator::deallocate(&mut dir, ptr, 96, 0),
        Ok(vec![Effect::Unmap { ptr, size: 96, fill: Some(0xdf) }])
    );
    assert_eq!(ProtectedKeyAllocator::deallocate(&mut dir, ptr, 96, 0), Err(Fault::UnknownPointer));
}
