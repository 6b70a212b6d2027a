use tars::fault::Fault;
use tars::region::RegionType;
use tars::table::{Table, INITIAL_REGIONS};

#[test]
fn a_new_table() {
    let table = Table::new(4096);
    assert_eq!(INITIAL_REGIONS, 128);
    assert_eq!(table.total(), 128);
    assert_eq!(table.free(), 128);
    assert_eq!(table.regions_used(), 0);
    assert_eq!(table.region_mask(), 127);
    assert_eq!(table.page_size(), 4096);
    assert_eq!(table.region_find(0x10000), None);
    assert_eq!(table.region_lookup(0x10000), None);
    for i in 0..128 {
        assert!(table.region_at_index(i).is_free());
    }
}

#[test]
fn home_slots_come_from_the_hash_of_the_page() {
    let table = Table::new(4096);
    // SipHash-2-4 under the zero key, of the page as eight little-endian bytes.
    assert_eq!(table.object_to_region_index(0x10000), 67);
    assert_eq!(table.object_to_region_index(0x10fff), 67);
    assert_eq!(table.object_to_region_index(0x20000), 57);
    assert_eq!(table.object_to_region_index(0x1000), 67);
    assert_eq!(table.object_to_region_index(0), 103);
    assert_eq!(table.object_to_region_index(0x7f00_0000_1000), 39);
    assert_eq!(table.region_pick(0x10000), 67);
}

#[test]
fn insertion_probes_downwards() {
    let mut table = Table::new(4096);
    assert_eq!(table.region_insert(0x10000, 64, true, 9), Ok(67));
    // The same home slot: the next slot down.
    assert_eq!(table.region_insert(0x1000, 9000, false, 9), Ok(66));
    assert_eq!(table.region_insert(0x20000, 0, true, 9), Ok(57));
    assert_eq!(table.free(), 125);
    assert_eq!(table.regions_used(), 3);

    let chunk = table.region_at_index(67);
    assert_eq!(chunk.object, 0x10000);
    assert_eq!(chunk.kind, RegionType::Chunk);
    assert_eq!(chunk.size, 64);
    assert_eq!(chunk.canary, 9 ^ 0x10000);
    assert_eq!(&chunk.mapping[..8], &[0xff; 8]);
    assert_eq!(&chunk.mapping[8..], &[0; 8]);
    let large = table.region_at_index(66);
    assert_eq!(large.kind, RegionType::Large);
    assert_eq!(large.mapping, [0; 16]);

    // Any address in a chunk page finds the chunk; a large object is found by its address alone.
    assert_eq!(table.region_find(0x10000), Some(67));
    assert_eq!(table.region_find(0x10040), Some(67));
    assert_eq!(table.region_find(0x1000), Some(66));
    assert_eq!(table.region_find(0x1001), None);
    assert_eq!(table.region_lookup(0x1001), Some(66));
    assert_eq!(table.region_find(0x20fff), Some(57));
    assert_eq!(table.region_find(0x30000), None);
}

#[test]
fn deletion_moves_records_up() {
    let mut table = Table::new(4096);
    assert_eq!(table.region_insert(0x10000, 64, true, 9), Ok(67));
    assert_eq!(table.region_insert(0x1000, 9000, false, 9), Ok(66));
    table.region_delete(67);
    // The record that was pushed down moves into its home slot.
    assert_eq!(table.region_find(0x1000), Some(67));
    assert!(table.region_at_index(66).is_free());
    assert_eq!(table.region_find(0x10000), None);
    assert_eq!(table.free(), 127);
    table.region_delete(67);
    assert_eq!(table.free(), 128);
    assert_eq!(table.region_find(0x1000), None);
}

#[test]
fn records_are_updated_in_place() {
    let mut table = Table::new(4096);
    let index = table.region_insert(0x10000, 64, true, 9).unwrap();
    let mut region = *table.region_at_index(index);
    region.next = 0x50000;
    region.take_chunk_slot(4096, 0);
    table.update(index, region);
    assert_eq!(table.region_at_index(index).next, 0x50000);
    assert!(!table.region_at_index(index).chunk_slot_is_free(0));
    assert_eq!(table.free(), 127);
}

#[test]
fn many_records_through_growth_and_shrinking() {
    let mut table = Table::new(4096);
    let page = |i: usize| 0x100_0000 + i * 0x3000;
    for i in 0..3000 {
        let index = table.region_insert(page(i), 5000 + i, false, 77).unwrap();
        assert_eq!(table.region_at_index(index).size, 5000 + i);
    }
    // Doubled at 97, 193, 385, 769, 1537 records.
    assert_eq!(table.total(), 4096);
    assert_eq!(table.regions_used(), 3000);
    for i in 0..3000 {
        let index = table.region_find(page(i)).unwrap();
        let region = table.region_at_index(index);
        assert_eq!(region.object, page(i));
        assert_eq!(region.size, 5000 + i);
        assert_eq!(region.canary, 77 ^ page(i));
        assert_eq!(table.region_find(page(i) + 0x1000), None);
    }
    for i in (0..3000).step_by(2) {
        let index = table.region_find(page(i)).unwrap();
        table.region_delete(index);
    }
    for i in 0..3000 {
        assert_eq!(table.region_find(page(i)).is_some(), i % 2 == 1);
    }
    for i in (1..3000).step_by(2) {
        let index = table.region_find(page(i)).unwrap();
        table.region_delete(index);
        assert_eq!(table.region_find(page(i)), None);
    }
    assert_eq!(table.total(), 128);
    assert_eq!(table.free(), 128);
}

#[test]
fn growth_happens_when_a_quarter_is_left() {
    let mut table = Table::new(4096);
    for i in 0..96 {
        table.region_insert(0x100_0000 + i * 0x1000, 0, true, 1).unwrap();
    }
    assert_eq!(table.total(), 128);
    assert_eq!(table.free(), 32);
    table.region_insert(0x200_0000, 0, true, 1).unwrap();
    assert_eq!(table.total(), 128);
    assert_eq!(table.free(), 31);
    table.region_insert(0x200_1000, 0, true, 1).unwrap();
    assert_eq!(table.total(), 256);
    assert_eq!(table.free(), 256 - 98);
    // Halved when fewer than a sixteenth of the slots are used.
    for i in 0..82 {
        let index = table.region_find(0x100_0000 + i * 0x1000).unwrap();
        table.region_delete(index);
    }
    assert_eq!(table.regions_used(), 16);
    assert_eq!(table.total(), 256);
    let index = table.region_find(0x100_0000 + 82 * 0x1000).unwrap();
    table.region_delete(index);
    assert_eq!(table.regions_used(), 15);
    assert_eq!(table.total(), 128);
    assert_eq!(table.region_find(0x200_1000).map(|i| table.region_at_index(i).object), Some(0x200_1000));
    let _: Result<usize, Fault> = table.region_insert(0x300_0000, 0, true, 1);
}
