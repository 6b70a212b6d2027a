use tars::fault::Fault;
use tars::mmap::Prot;
use tars::region::{
    chunk_index, chunk_size, fill_byte_alloc, fill_byte_dealloc, max_chunk_shift, max_chunk_size,
    max_slot_index, min_chunk_size, page_shift, Effect, Region, RegionType, ALLOC_JUNK, FREE_JUNK,
    MAX_CHUNK_MAPPING, MAX_CHUNK_SHIFT, MIN_CHUNK_SIZE,
};

#[test]
fn size_classes() {
    assert_eq!((MIN_CHUNK_SIZE, MAX_CHUNK_SHIFT, MAX_CHUNK_MAPPING), (16, 16, 16));
    assert_eq!(page_shift(4096), 12);
    assert_eq!(page_shift(65536), 16);
    assert_eq!(max_chunk_shift(4096), 11);
    assert_eq!(max_chunk_shift(16384), 13);
    assert_eq!(max_chunk_size(4096), 2048);
    assert_eq!(max_chunk_size(65536), 32768);
    assert_eq!(min_chunk_size(4096), 32);
    assert_eq!(min_chunk_size(8192), 64);
    assert_eq!(min_chunk_size(65536), 512);
    assert_eq!(max_slot_index(32, 4096), 128);
    assert_eq!(max_slot_index(2048, 4096), 2);

    assert_eq!(chunk_size(0, 4096), 0);
    assert_eq!(chunk_size(1, 4096), 32);
    assert_eq!(chunk_size(32, 4096), 32);
    assert_eq!(chunk_size(33, 4096), 64);
    assert_eq!(chunk_size(42, 4096), 64);
    assert_eq!(chunk_size(1024, 4096), 1024);
    assert_eq!(chunk_size(1025, 4096), 2048);
    assert_eq!(chunk_size(2048, 4096), 2048);
    assert_eq!(chunk_size(42, 65536), 512);
    assert_eq!(chunk_size(513, 65536), 1024);
    assert_eq!(chunk_size(32768, 65536), 32768);

    assert_eq!(chunk_index(0), 0);
    assert_eq!(chunk_index(32), 5);
    assert_eq!(chunk_index(64), 6);
    assert_eq!(chunk_index(2048), 11);
    assert_eq!(chunk_index(32768), 15);
}

#[test]
fn fill_bytes() {
    assert_eq!((ALLOC_JUNK, FREE_JUNK), (0xd0, 0xdf));
    assert_eq!(fill_byte_alloc(true), Some(0));
    assert_eq!(fill_byte_alloc(false), Some(0xd0));
    assert_eq!(fill_byte_dealloc(), Some(0xdf));
}

fn chunk(size: usize) -> Region {
    let mut region = Region::vacant();
    region.init(0x10000, size, true, 0x5555, 4096);
    region
}

#[test]
fn a_vacant_record() {
    let region = Region::vacant();
    assert!(region.is_free());
    assert!(!region.is_chunk());
    assert_eq!(region.object, 0);
    assert_eq!(region.mapping, [0u8; 16]);
    assert!(!region.check_integrity(0));
}

#[test]
fn init_maps_the_slots_of_the_class() {
    let region = chunk(32);
    assert_eq!(region.kind, RegionType::Chunk);
    assert_eq!(region.canary, 0x5555 ^ 0x10000);
    assert_eq!(region.mapping, [0xffu8; 16]);
    assert!(region.check_integrity(0x5555));
    assert!(!region.check_integrity(0x5554));
    assert!(region.is_empty_chunk(4096));
    assert!(!region.is_full_chunk(4096));

    let region = chunk(512);
    let mut expected = [0u8; 16];
    expected[0] = 0xff;
    assert_eq!(region.mapping, expected);

    let region = chunk(1024);
    expected[0] = 0x0f;
    assert_eq!(region.mapping, expected);

    let mut region = chunk(2048);
    expected[0] = 0x03;
    assert_eq!(region.mapping, expected);
    assert_eq!((region.next, region.prev), (0, 0));

    // A page that comes back from the cache has its old bitmap cleared.
    region.mapping = [0xff; 16];
    region.init_chunk(4096);
    assert_eq!(region.mapping, expected);

    let mut large = Region::vacant();
    large.init(0x30123, 9000, false, 1, 4096);
    assert_eq!(large.kind, RegionType::Large);
    assert_eq!(large.size, 9000);
    assert_eq!(large.canary, 1 ^ 0x30123);
    assert_eq!(large.mapping, [0u8; 16]);
}

#[test]
fn slots_are_taken_downwards_from_the_start() {
    let mut region = chunk(512);
    assert_eq!(region.take_chunk_slot(4096, 3), 3);
    assert!(!region.chunk_slot_is_free(3));
    assert!(region.chunk_slot_is_free(2));
    assert_eq!(region.take_chunk_slot(4096, 3), 2);
    assert_eq!(region.take_chunk_slot(4096, 3), 1);
    assert_eq!(region.take_chunk_slot(4096, 3), 0);
    assert_eq!(region.take_chunk_slot(4096, 3), 7);
    assert_eq!(region.take_chunk_slot(4096, 0), 6);
    assert_eq!(region.mapping[0], 0b0011_0000);
    assert!(!region.is_full_chunk(4096));
    assert!(!region.is_empty_chunk(4096));
    assert_eq!(region.take_chunk_slot(4096, 5), 5);
    assert_eq!(region.take_chunk_slot(4096, 5), 4);
    assert!(region.is_full_chunk(4096));
    assert_eq!(region.mapping, [0u8; 16]);
}

#[test]
fn slots_are_given_back() {
    let mut region = chunk(512);
    for _ in 0..8 {
        region.take_chunk_slot(4096, 7);
    }
    assert_eq!(
        region.free_chunk_slot(1024, 4096),
        Ok(Effect::Fill { ptr: 0x10000 + 1024, size: 512, byte: 0xdf })
    );
    assert_eq!(region.mapping[0], 0b0000_0100);
    assert_eq!(region.free_chunk_slot(1024, 4096), Err(Fault::DoubleFree));
    assert_eq!(region.free_chunk_slot(1025, 4096), Err(Fault::Misaligned));
    assert_eq!(region.free_chunk_slot(4096, 4096), Err(Fault::Misaligned));
    assert_eq!(region.mapping[0], 0b0000_0100);
    for slot in [0usize, 1, 3, 4, 5, 6, 7] {
        assert!(region.free_chunk_slot(slot * 512, 4096).is_ok());
    }
    assert!(region.is_empty_chunk(4096));
    assert!(region.chunk_state(false, 4096));
    assert!(!region.chunk_state(true, 4096));
}

#[test]
fn a_chunk_of_many_slots() {
    let mut region = chunk(32);
    for i in 0..128 {
        assert!(!region.is_full_chunk(4096));
        assert_eq!(region.take_chunk_slot(4096, 127), 127 - i);
        assert!(!region.is_empty_chunk(4096));
    }
    assert!(region.is_full_chunk(4096));
    assert!(region.free_chunk_slot(100 * 32, 4096).is_ok());
    assert!(!region.is_full_chunk(4096));
    assert_eq!(region.take_chunk_slot(4096, 5), 100);
}

#[test]
fn kinds_change_with_the_cache() {
    let mut region = chunk(64);
    assert_eq!(
        region.set_as_cache(4096),
        Effect::Protect { ptr: 0x10000, size: 4096, prot: Prot::NoAccess }
    );
    assert_eq!(region.kind, RegionType::Cache);
    assert_eq!(region.size, 0);
    assert_eq!(
        region.set_as_chunk(2048, 4096),
        Effect::Protect { ptr: 0x10000, size: 4096, prot: Prot::ReadWrite }
    );
    assert_eq!(region.kind, RegionType::Chunk);
    assert_eq!(region.size, 2048);
    assert_eq!(region.mapping[0], 0b11);
    assert_eq!(region.mapping[1], 0);
    region.set_as_free();
    assert!(region.is_free());
    assert_eq!(region.object, 0);
}

#[test]
fn releases() {
    let mut region = chunk(64);
    assert_eq!(
        region.dealloc_data(false, 4096),
        Effect::Unmap { ptr: 0x10000, size: 4096, fill: None }
    );
    assert!(region.is_free());
    let mut region = chunk(64);
    assert_eq!(
        region.dealloc_data(true, 4096),
        Effect::Unmap { ptr: 0x10000, size: 4096, fill: Some(0xdf) }
    );
    let mut region = chunk(64);
    region.set_as_cache(4096);
    assert_eq!(
        region.dealloc_data(true, 4096),
        Effect::Unmap { ptr: 0x10000, size: 4096, fill: None }
    );
    let mut large = Region::vacant();
    large.init(0x30123, 9000, false, 1, 4096);
    assert_eq!(
        large.dealloc_data(false, 4096),
        Effect::Unmap { ptr: 0x30123, size: 9000, fill: Some(0xdf) }
    );
}
