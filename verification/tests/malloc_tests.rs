use std::collections::BTreeMap;

use rand::Rng;
use tars::dir::Dir;
use tars::state::{AllocStep, Draws, MapRequest};
use tars::fault::Fault;
use tars::malloc::{
    align_to_size, calloc, free, malloc, malloc_key, next_power_of_two, protect_none,
    protect_read, protect_write, realloc, realloc_key, ThreadDir,
};
use tars::mmap::{allocate, deallocate, mask_pointer, protect, Prot, RangePos};
use tars::region::Effect;

const PAGE: usize = 4096;

/// Memory that does what the directory asks of its driver.
struct Memory {
    next: usize,
    regions: BTreeMap<usize, (Vec<u8>, Prot)>,
}

impl Memory {
    fn new() -> Memory {
        Memory { next: 0x10_0000, regions: BTreeMap::new() }
    }

    fn map(&mut self, request: &MapRequest) -> usize {
        let plan = allocate(
            request.size,
            request.align,
            request.fill,
            request.prot,
            request.pos,
            PAGE,
        )
        .unwrap();
        let start = self.next;
        self.next += plan.full_size;
        let base = start + PAGE;
        let fill = plan.fill.unwrap_or(0);
        self.regions.insert(base, (vec![fill; plan.region_size], plan.prot));
        base + plan.offset
    }

    fn region(&mut self, addr: usize, size: usize) -> (usize, &mut (Vec<u8>, Prot)) {
        let (base, region) = self.regions.range_mut(..=addr).next_back().expect("unmapped address");
        assert!(addr + size <= *base + region.0.len(), "access past the end of a mapping");
        (*base, region)
    }

    fn apply(&mut self, effects: &[Effect]) {
        for effect in effects {
            match *effect {
                Effect::Protect { ptr, size, prot } => {
                    let plan = protect(ptr, size, prot, PAGE).unwrap().unwrap();
                    let region = self.regions.get_mut(&plan.addr).expect("protect of no mapping");
                    assert_eq!(plan.len, region.0.len());
                    region.1 = plan.prot;
                }
                Effect::Fill { ptr, size, byte } => {
                    let (base, region) = self.region(ptr, size);
                    for b in &mut region.0[ptr - base..ptr - base + size] {
                        *b = byte;
                    }
                }
                Effect::Copy { src, dst, size } => {
                    let (base, region) = self.region(src, size);
                    let bytes = region.0[src - base..src - base + size].to_vec();
                    let (base, region) = self.region(dst, size);
                    region.0[dst - base..dst - base + size].copy_from_slice(&bytes);
                }
                Effect::Unmap { ptr, size, fill } => {
                    let plan = deallocate(ptr, size, fill, PAGE).unwrap().unwrap();
                    let region = self.regions.remove(&plan.region).expect("unmap of no mapping");
                    assert_eq!(plan.region_size, region.0.len());
                }
            }
        }
    }

    fn write_bytes(&mut self, ptr: usize, size: usize) {
        if size == 0 {
            return;
        }
        let (base, region) = self.region(ptr, size);
        assert!(region.1 == Prot::Write || region.1 == Prot::ReadWrite);
        for j in 0..size {
            region.0[ptr - base + j] = (j % 256) as u8;
        }
    }

    fn read_bytes(&mut self, ptr: usize, size: usize) {
        if size == 0 {
            return;
        }
        let (base, region) = self.region(ptr, size);
        assert!(region.1 != Prot::NoAccess);
        for j in 0..size {
            assert_eq!(region.0[ptr - base + j], (j % 256) as u8);
        }
    }

    fn byte(&mut self, ptr: usize) -> u8 {
        let (base, region) = self.region(ptr, 1);
        region.0[ptr - base]
    }
}

struct Heap {
    dir: ThreadDir,
    memory: Memory,
}

impl Heap {
    fn new() -> Heap {
        Heap { dir: ThreadDir::new(PAGE, 0x7000_1230).unwrap(), memory: Memory::new() }
    }

    fn serve<F>(&mut self, mut request: F) -> Result<usize, Fault>
    where
        F: FnMut(&mut ThreadDir, Option<usize>) -> Result<AllocStep, Fault>,
    {
        let step = match request(&mut self.dir, None)? {
            AllocStep::NeedMap(wanted) => {
                let mapped = self.memory.map(&wanted);
                request(&mut self.dir, Some(mapped))?
            }
            done => done,
        };
        match step {
            AllocStep::Done { ptr, effects } => {
                self.memory.apply(&effects);
                Ok(ptr)
            }
            AllocStep::NeedMap(_) => panic!("pages asked for twice"),
        }
    }

    fn malloc(&mut self, size: usize, align: usize) -> usize {
        self.serve(|dir, mapped| malloc(dir, size, align, mapped)).unwrap()
    }

    fn malloc_key(&mut self, size: usize, align: usize) -> usize {
        self.serve(|dir, mapped| malloc_key(dir, size, align, mapped)).unwrap()
    }

    fn calloc(&mut self, count: usize, size: usize, align: usize) -> usize {
        self.serve(|dir, mapped| calloc(dir, count, size, align, mapped)).unwrap()
    }

    fn realloc(&mut self, ptr: usize, size: usize, align: usize) -> usize {
        self.serve(|dir, mapped| realloc(dir, ptr, size, align, mapped)).unwrap()
    }

    fn realloc_key(&mut self, ptr: usize, size: usize, align: usize) -> usize {
        self.serve(|dir, mapped| realloc_key(dir, ptr, size, align, mapped)).unwrap()
    }

    fn free(&mut self, ptr: usize) {
        let effects = free(&mut self.dir, ptr).unwrap();
        self.memory.apply(&effects);
    }

    fn protect_read(&mut self, ptr: usize) {
        let effects = protect_read(&mut self.dir, ptr).unwrap();
        self.memory.apply(&effects);
    }

    fn protect_write(&mut self, ptr: usize) {
        let effects = protect_write(&mut self.dir, ptr).unwrap();
        self.memory.apply(&effects);
    }

    fn protect_none(&mut self, ptr: usize) {
        let effects = protect_none(&mut self.dir, ptr).unwrap();
        self.memory.apply(&effects);
    }

    fn total(&self) -> usize {
        self.dir.dir().total()
    }

    fn unused(&self) -> usize {
        self.dir.dir().free()
    }

    fn cache_len(&self) -> usize {
        self.dir.dir().cache_len()
    }
}

fn random_below(n: usize) -> usize {
    rand::thread_rng().gen_range(0..n)
}

#[test]
fn test_malloc_chunks() {
    const NA: usize = 2048;
    let mut heap = Heap::new();
    let mut p = vec![0usize; NA];
    let mut s = vec![0usize; NA];

    for i in 0..NA {
        s[i] = random_below(PAGE >> 1);
        p[i] = heap.malloc(s[i], 0);
        assert!(p[i] != 0);
        heap.memory.write_bytes(p[i], s[i]);
    }

    for i in (0..NA).step_by(16) {
        heap.memory.read_bytes(p[i], s[i]);
        heap.free(p[i]);
    }

    for i in (0..NA).step_by(16) {
        s[i] = random_below(PAGE >> 1);
        p[i] = heap.malloc(s[i], 0);
        assert!(p[i] != 0);
        heap.memory.write_bytes(p[i], s[i]);
    }

    for i in 0..NA {
        heap.memory.read_bytes(p[i], s[i]);
        heap.free(p[i]);
    }

    assert!(heap.total() - heap.cache_len() <= heap.unused() + 1);
}

#[test]
fn test_malloc_large() {
    const NA: usize = 2048;
    let mut heap = Heap::new();
    let mut p = vec![0usize; NA];
    let mut s = vec![0usize; NA];

    for i in 0..NA {
        s[i] = (PAGE >> 1) + 1 + random_below((PAGE << 3) - (PAGE >> 1) - 1);
        p[i] = heap.malloc(s[i], 0);
        assert!(p[i] != 0);
        heap.memory.write_bytes(p[i], s[i]);
    }

    for i in 0..NA {
        heap.memory.read_bytes(p[i], s[i]);
        heap.free(p[i]);
    }

    assert_eq!(heap.total(), heap.unused());
}

#[test]
fn test_malloc_keys() {
    const NA: usize = 2048;
    let mut heap = Heap::new();
    let mut p = vec![0usize; NA];
    let mut s = vec![0usize; NA];

    for i in 0..NA {
        s[i] = random_below(PAGE << 3);
        p[i] = heap.malloc_key(s[i], 0);
        assert!(p[i] != 0);
        heap.memory.write_bytes(p[i], s[i]);
    }

    for i in 0..NA {
        heap.memory.read_bytes(p[i], s[i]);
        heap.free(p[i]);
    }

    assert_eq!(heap.total(), heap.unused());
}

#[test]
fn test_malloc_mixed() {
    const NA: usize = 8192;
    let mut heap = Heap::new();
    let mut p = vec![0usize; NA];
    let mut s = vec![0usize; NA];

    for i in 0..NA {
        s[i] = random_below(PAGE << 2);
        p[i] = heap.malloc(s[i], 0);
        assert!(p[i] != 0);
        heap.memory.write_bytes(p[i], s[i]);
    }

    for i in (0..NA).step_by(16) {
        heap.memory.read_bytes(p[i], s[i]);
        heap.free(p[i]);
    }

    for i in (0..NA).step_by(16) {
        s[i] = random_below(PAGE << 4);
        p[i] = heap.malloc(s[i], 0);
        assert!(p[i] != 0);
        heap.memory.write_bytes(p[i], s[i]);
    }

    for i in 0..NA {
        heap.memory.read_bytes(p[i], s[i]);
        heap.free(p[i]);
    }

    assert!(heap.total() - heap.cache_len() <= heap.unused() + 1);
}

#[test]
fn test_malloc_align() {
    let mut heap = Heap::new();
    let mut align = 1;

    while align < PAGE {
        let size = random_below(PAGE << 2);

        let sptr = heap.malloc(size, align);
        let kptr = heap.malloc_key(size, align);
        assert!(sptr != 0 && kptr != 0);
        assert!(sptr % align == 0 && kptr % align == 0);

        heap.memory.write_bytes(sptr, size);
        heap.memory.write_bytes(kptr, size);
        heap.memory.read_bytes(sptr, size);
        heap.memory.read_bytes(kptr, size);

        heap.free(sptr);
        heap.free(kptr);

        align *= 2;
    }

    assert_eq!(heap.malloc(42, align), 0);
    assert_eq!(heap.malloc_key(42, align), 0);
}

#[test]
#[should_panic]
fn test_double_free_chunk1() {
    let mut heap = Heap::new();
    let first = heap.malloc(42, 0);
    let second = heap.malloc(42, 0);
    assert!(first != 0 && second != 0);

    heap.free(first);
    heap.free(first);
}

#[test]
#[should_panic]
fn test_double_free_chunk2() {
    let mut heap = Heap::new();
    let p = heap.malloc(42, 0);
    assert!(p != 0);
    heap.free(p);
    heap.free(p);
}

#[test]
#[should_panic]
fn test_free_invalid1() {
    let mut heap = Heap::new();
    heap.free(42);
}

#[test]
#[should_panic]
fn test_free_invalid2() {
    let mut heap = Heap::new();
    // Stored in a chunk of size 64.
    let first = heap.malloc(42, 0);
    let second = if mask_pointer(first, PAGE) == first { first + 64 } else { mask_pointer(first, PAGE) };
    heap.free(second);
}

#[test]
#[should_panic]
fn test_free_invalid3() {
    let mut heap = Heap::new();
    let p = heap.malloc(PAGE, 0);
    heap.free(p + 64);
}

#[test]
#[should_panic]
fn test_protect_chunk() {
    let mut heap = Heap::new();
    let p = heap.malloc(42, 0);
    assert!(p != 0);
    heap.protect_read(p);
}

#[test]
#[should_panic]
fn test_protect_missing() {
    let mut heap = Heap::new();
    heap.protect_read(42);
}

#[test]
fn test_protect() {
    let mut heap = Heap::new();
    let p = heap.malloc_key(42, 0);
    assert!(p != 0);

    heap.protect_write(p);
    heap.memory.write_bytes(p, 42);

    heap.protect_none(p);

    heap.protect_read(p);
    heap.memory.read_bytes(p, 42);

    heap.protect_none(p);
    heap.free(p);
}

#[test]
fn test_null() {
    let mut heap = Heap::new();
    heap.free(0);
    heap.protect_none(0);
    heap.protect_read(0);
    heap.protect_write(0);
}

#[test]
fn test_zero() {
    let mut heap = Heap::new();
    let p = heap.malloc(0, 0);
    assert!(p != 0);
    heap.free(p);
}

#[test]
fn test_realloc() {
    let mut heap = Heap::new();
    let size1 = random_below(PAGE << 2);
    let size2 = random_below(PAGE << 2);

    let mut first = heap.malloc(size1, 0);
    let mut second = heap.malloc_key(size1, 0);
    assert!(first != 0);
    assert!(second != 0);

    heap.memory.write_bytes(first, size1);
    heap.memory.write_bytes(second, size1);

    first = heap.realloc(first, size2, 0);
    second = heap.realloc_key(second, size2, 0);
    assert!(first != 0);
    assert!(second != 0);

    heap.memory.read_bytes(first, size1.min(size2));
    heap.memory.read_bytes(second, size1.min(size2));

    if size2 > size1 {
        heap.memory.write_bytes(first, size2);
        heap.memory.write_bytes(second, size2);
        heap.memory.read_bytes(first, size2);
        heap.memory.read_bytes(second, size2);
    }

    heap.free(first);
    heap.free(second);
}

#[test]
fn test_realloc_zero() {
    let mut heap = Heap::new();
    let size = random_below(PAGE << 2);

    let mut first = heap.malloc(size, 0);
    assert!(first != 0);
    heap.memory.write_bytes(first, size);

    first = heap.realloc(first, 0, 0);
    assert!(first != 0);

    let second = heap.realloc(first, 0, 0);
    assert!(second != 0);

    assert_eq!(first, second);

    heap.free(first);
    heap.free(second);
}

#[test]
fn test_calloc() {
    let mut heap = Heap::new();
    // Large
    let mut p = heap.calloc(1, PAGE, 0);
    assert!(p != 0);
    for i in 0..PAGE {
        assert_eq!(heap.memory.byte(p + i), 0);
    }
    heap.free(p);

    // Chunk
    p = heap.calloc(1, 42, 0);
    assert!(p != 0);
    for i in 0..42 {
        assert_eq!(heap.memory.byte(p + i), 0);
    }
    heap.free(p);
}

#[test]
#[should_panic]
fn test_calloc_overflow() {
    let mut heap = Heap::new();
    heap.calloc(usize::MAX, 2, 0);
}

#[test]
fn calloc_overflow_is_a_fault() {
    let mut heap = Heap::new();
    assert_eq!(calloc(&mut heap.dir, usize::MAX, 2, 0, None), Err(Fault::Overflow));
    assert_eq!(heap.total(), heap.unused());
}

#[test]
fn malloc_free_twice_returns_to_start() {
    let mut heap = Heap::new();
    let p = heap.malloc(42, 0);
    heap.free(p);
    let q = heap.malloc(42, 0);
    heap.free(q);
    assert_eq!(heap.total(), heap.unused() + 1);
    assert!(heap.cache_len() <= 1);
    assert_eq!(heap.cache_len(), 1);
}

#[test]
fn second_free_is_refused() {
    let mut heap = Heap::new();
    let p = heap.malloc(42, 0);
    heap.free(p);
    let refused = free(&mut heap.dir, p);
    assert!(refused == Err(Fault::UnknownPointer) || refused == Err(Fault::WrongKind));

    let a = heap.malloc(42, 0);
    let b = heap.malloc(42, 0);
    assert!(a != b);
    heap.free(a);
    assert_eq!(free(&mut heap.dir, a), Err(Fault::DoubleFree));
    heap.free(b);
}

#[test]
fn key_protection_scenario() {
    let mut heap = Heap::new();
    let p = heap.malloc_key(256, 0);
    assert_eq!(
        protect_write(&mut heap.dir, p),
        Ok(vec![Effect::Protect { ptr: p, size: 256, prot: Prot::Write }])
    );
    heap.protect_write(p);
    heap.memory.write_bytes(p, 256);
    heap.protect_read(p);
    heap.memory.read_bytes(p, 256);
    heap.protect_none(p);
    assert_eq!(
        protect_none(&mut heap.dir, p),
        Ok(vec![Effect::Protect { ptr: p, size: 256, prot: Prot::NoAccess }])
    );
    heap.free(p);

    let chunk = heap.malloc(42, 0);
    assert_eq!(protect_read(&mut heap.dir, chunk), Err(Fault::WrongKind));
    assert_eq!(protect_read(&mut heap.dir, 42), Err(Fault::UnknownPointer));
}

#[test]
fn every_size_and_alignment() {
    let mut heap = Heap::new();
    let mut align = 0;
    while align <= PAGE / 2 {
        for n in [0, 1, 15, 16, 17, 42, 2047, 2048, 2049, 4096, 4097, 4 * PAGE] {
            let p = heap.malloc(n, align);
            assert!(p != 0);
            assert_eq!(p % align.max(1), 0);
            heap.memory.write_bytes(p, n);
            heap.memory.read_bytes(p, n);
            heap.free(p);
        }
        align = if align == 0 { 1 } else { align * 2 };
    }
}

#[test]
fn the_first_small_request_step_by_step() {
    let mut dir = Dir::with_canary(PAGE, 0x5000, 0xabcd);
    assert!(dir.check_integrity());
    assert_eq!(dir.page_size(), PAGE);
    let draws = Draws { cache_head: true, chunk_head: true, slot: 5 };
    let wanted = MapRequest {
        size: PAGE,
        align: 0,
        fill: Some(0xd0),
        prot: Prot::ReadWrite,
        pos: RangePos::Start,
    };
    assert_eq!(dir.alloc_with(42, false, false, None, draws), Ok(AllocStep::NeedMap(wanted)));
    assert_eq!(dir.total(), 128);
    assert_eq!(dir.free(), 128);

    let page = 0x20_0000;
    // Slots of 64 bytes, the search starts at slot 5 and all are free.
    assert_eq!(
        dir.alloc_with(42, false, false, Some(page), draws),
        Ok(AllocStep::Done {
            ptr: page + 5 * 64,
            effects: vec![Effect::Fill { ptr: page + 5 * 64, size: 64, byte: 0xd0 }],
        })
    );
    assert_eq!(dir.free(), 127);

    // Slot 5 is taken: a search from slot 5 goes down to slot 4.
    assert_eq!(
        dir.alloc_with(64, true, false, None, draws),
        Ok(AllocStep::Done {
            ptr: page + 4 * 64,
            effects: vec![Effect::Fill { ptr: page + 4 * 64, size: 64, byte: 0 }],
        })
    );
    // The draw is taken modulo the 64 slots; from slot 0 the search wraps round.
    let wrap = Draws { cache_head: false, chunk_head: false, slot: 64 };
    assert_eq!(
        dir.alloc_with(33, false, false, None, wrap),
        Ok(AllocStep::Done {
            ptr: page,
            effects: vec![Effect::Fill { ptr: page, size: 64, byte: 0xd0 }],
        })
    );
    assert_eq!(
        dir.alloc_with(33, false, false, None, wrap),
        Ok(AllocStep::Done {
            ptr: page + 63 * 64,
            effects: vec![Effect::Fill { ptr: page + 63 * 64, size: 64, byte: 0xd0 }],
        })
    );

    assert_eq!(dir.dealloc_check(page + 5 * 64), None);
    assert_eq!(dir.dealloc_check(page + 5 * 64 + 1), Some(Fault::Misaligned));
    assert_eq!(dir.dealloc_check(page + 6 * 64), Some(Fault::DoubleFree));
    assert_eq!(dir.dealloc_check(page + PAGE), Some(Fault::UnknownPointer));
    assert_eq!(dir.dealloc(page + 6 * 64), Err(Fault::DoubleFree));
    assert_eq!(dir.dealloc(page + 3), Err(Fault::Misaligned));

    assert_eq!(
        dir.dealloc(page + 5 * 64),
        Ok(vec![Effect::Fill { ptr: page + 5 * 64, size: 64, byte: 0xdf }])
    );
    assert_eq!(
        dir.dealloc(page + 4 * 64),
        Ok(vec![Effect::Fill { ptr: page + 4 * 64, size: 64, byte: 0xdf }])
    );
    assert_eq!(dir.dealloc(page), Ok(vec![Effect::Fill { ptr: page, size: 64, byte: 0xdf }]));
    assert_eq!(dir.cache_len(), 0);
    // The last allocation leaves: the page goes to the cache.
    assert_eq!(
        dir.dealloc(page + 63 * 64),
        Ok(vec![
            Effect::Fill { ptr: page + 63 * 64, size: 64, byte: 0xdf },
            Effect::Protect { ptr: page, size: PAGE, prot: Prot::NoAccess },
        ])
    );
    assert_eq!(dir.cache_len(), 1);
    assert_eq!(dir.free(), 127);
    assert_eq!(dir.dealloc(page), Err(Fault::WrongKind));
    assert_eq!(dir.dealloc(page + 64), Err(Fault::UnknownPointer));

    // The cached page serves the next class that needs one.
    assert_eq!(
        dir.alloc_with(2048, false, false, None, draws),
        Ok(AllocStep::Done {
            ptr: page + 2048,
            effects: vec![
                Effect::Protect { ptr: page, size: PAGE, prot: Prot::ReadWrite },
                Effect::Fill { ptr: page + 2048, size: 2048, byte: 0xd0 },
            ],
        })
    );
    assert_eq!(dir.cache_len(), 0);
    assert_eq!(dir.alloc_with(2048, false, false, Some(0x30_0000), draws), Err(Fault::Mapping));

    let effects = dir.scavenge();
    assert_eq!(effects, vec![Effect::Unmap { ptr: page, size: PAGE, fill: Some(0xdf) }]);
}

#[test]
fn large_and_key_requests_step_by_step() {
    let mut dir = Dir::with_canary(PAGE, 0x5000, 7);
    let draws = Draws { cache_head: true, chunk_head: true, slot: 0 };
    assert_eq!(
        dir.alloc_with(5000, true, false, None, draws),
        Ok(AllocStep::NeedMap(MapRequest {
            size: 5000,
            align: 0,
            fill: Some(0),
            prot: Prot::ReadWrite,
            pos: RangePos::Start,
        }))
    );
    assert_eq!(dir.alloc_with(5000, true, false, Some(0), draws), Err(Fault::Mapping));
    assert_eq!(dir.alloc_with(5000, true, false, Some(0x40_0010), draws), Err(Fault::Mapping));
    assert_eq!(dir.alloc_with(5000, true, false, Some(0x800), draws), Err(Fault::Mapping));
    assert_eq!(
        dir.alloc_with(5000, true, false, Some(usize::MAX - 0xfff), draws),
        Err(Fault::Mapping)
    );
    assert_eq!(
        dir.alloc_with(5000, true, false, Some(0x40_0000), draws),
        Ok(AllocStep::Done { ptr: 0x40_0000, effects: vec![] })
    );
    assert_eq!(dir.alloc_with(5000, true, false, Some(0x40_0000), draws), Err(Fault::Mapping));
    assert_eq!(dir.alloc_with(usize::MAX, false, false, None, draws), Err(Fault::Overflow));
    assert_eq!(dir.alloc_with(usize::MAX / 2, false, true, None, draws), Err(Fault::Overflow));

    // A key of 100 bytes sits at the end of its page, on a multiple of 16.
    assert_eq!(
        dir.alloc_with(100, false, true, None, draws),
        Ok(AllocStep::NeedMap(MapRequest {
            size: 100,
            align: 0,
            fill: Some(0xd0),
            prot: Prot::Write,
            pos: RangePos::End,
        }))
    );
    assert_eq!(dir.alloc_with(100, false, true, Some(0x50_0000), draws), Err(Fault::Mapping));
    let key = 0x50_0000 + 3984;
    assert_eq!(
        dir.alloc_with(100, false, true, Some(key), draws),
        Ok(AllocStep::Done { ptr: key, effects: vec![] })
    );
    assert_eq!(dir.free(), 126);

    assert_eq!(
        dir.protect(key, Prot::Read),
        Ok(vec![Effect::Protect { ptr: key, size: 100, prot: Prot::Read }])
    );
    assert_eq!(dir.protect(key + 1, Prot::Read), Err(Fault::UnknownPointer));
    assert_eq!(dir.protect(0, Prot::Read), Ok(vec![]));
    assert_eq!(dir.dealloc(0x40_0001), Err(Fault::UnknownPointer));
    assert_eq!(
        dir.dealloc(0x40_0000),
        Ok(vec![Effect::Unmap { ptr: 0x40_0000, size: 5000, fill: Some(0xdf) }])
    );
    assert_eq!(dir.dealloc(key), Ok(vec![Effect::Unmap { ptr: key, size: 100, fill: Some(0xdf) }]));
    assert_eq!(dir.free(), 128);
}

#[test]
fn realloc_moves_and_frees() {
    let mut dir = Dir::with_canary(PAGE, 0x5000, 7);
    let draws = Draws { cache_head: true, chunk_head: true, slot: 0 };
    let page = 0x20_0000;
    assert_eq!(
        dir.alloc_with(100, false, false, Some(page), draws),
        Ok(AllocStep::Done {
            ptr: page,
            effects: vec![Effect::Fill { ptr: page, size: 128, byte: 0xd0 }],
        })
    );
    // Growing within the class still moves: the search from slot 0 wraps to the last slot.
    assert_eq!(
        dir.realloc_with(page, 120, false, false, None, draws),
        Ok(AllocStep::Done {
            ptr: page + 31 * 128,
            effects: vec![
                Effect::Fill { ptr: page + 31 * 128, size: 128, byte: 0xd0 },
                Effect::Copy { src: page, dst: page + 31 * 128, size: 120 },
                Effect::Fill { ptr: page, size: 128, byte: 0xdf },
            ],
        })
    );
    assert_eq!(dir.dealloc_check(page), Some(Fault::DoubleFree));
    assert_eq!(dir.realloc_with(page, 10, false, false, None, draws), Err(Fault::DoubleFree));
    assert_eq!(dir.realloc_with(77, 10, false, false, None, draws), Err(Fault::UnknownPointer));
    // A null pointer makes it a plain request.
    assert_eq!(
        dir.realloc_with(0, 128, true, false, None, draws),
        Ok(AllocStep::Done {
            ptr: page,
            effects: vec![Effect::Fill { ptr: page, size: 128, byte: 0 }],
        })
    );
    // To a large object: asks for pages first, then copies what the slot held.
    let old = page + 31 * 128;
    assert!(matches!(
        dir.realloc_with(old, 9000, false, false, None, draws),
        Ok(AllocStep::NeedMap(_))
    ));
    assert_eq!(
        dir.realloc_with(old, 9000, false, false, Some(0x60_0000), draws),
        Ok(AllocStep::Done {
            ptr: 0x60_0000,
            effects: vec![
                Effect::Copy { src: old, dst: 0x60_0000, size: 128 },
                Effect::Fill { ptr: old, size: 128, byte: 0xdf },
            ],
        })
    );
}

#[test]
fn empty_requests_share_one_page() {
    let mut heap = Heap::new();
    let a = heap.malloc(0, 0);
    let b = heap.malloc(0, 8);
    assert_eq!(a, b);
    assert_eq!(a % PAGE, 0);
    heap.free(a);
    heap.free(a);
    let c = heap.malloc(0, 0);
    assert_eq!(a, c);
    assert_eq!(heap.total(), heap.unused() + 1);
    assert_eq!(heap.cache_len(), 0);
    assert_eq!(heap.memory.regions.get(&a).unwrap().1, Prot::NoAccess);
    assert_eq!(protect_read(&mut heap.dir, a), Err(Fault::WrongKind));
}

#[test]
fn the_cache_is_bounded() {
    let mut heap = Heap::new();
    let mut held = Vec::new();
    // One allocation in each of 100 chunks of two slots.
    for _ in 0..100 {
        let a = heap.malloc(2048, 0);
        let b = heap.malloc(2048, 0);
        held.push((a, b));
    }
    assert_eq!(heap.memory.regions.len(), 100);
    for (a, b) in held {
        heap.free(a);
        heap.free(b);
    }
    assert_eq!(heap.cache_len(), 64);
    assert_eq!(heap.memory.regions.len(), 64);
    assert_eq!(heap.total() - heap.unused(), 64);
}

#[test]
fn the_table_grows_and_shrinks() {
    let mut heap = Heap::new();
    let mut held = Vec::new();
    for _ in 0..1000 {
        held.push(heap.malloc(PAGE, 0));
    }
    assert_eq!(heap.total(), 2048);
    assert_eq!(heap.unused(), 1048);
    for p in &held {
        assert_eq!(heap.dir.dir().dealloc_check(*p), None);
    }
    for p in held {
        heap.free(p);
    }
    assert_eq!(heap.total(), 128);
    assert_eq!(heap.unused(), 128);
    assert!(heap.memory.regions.is_empty());
}

#[test]
fn teardown_releases_everything() {
    let mut heap = Heap::new();
    let chunk = heap.malloc(100, 0);
    let large = heap.malloc(10000, 0);
    let gone = heap.malloc(2048, 0);
    heap.free(gone);
    let page = mask_pointer(chunk, PAGE);
    let cached = mask_pointer(gone, PAGE);
    let mut effects = heap.dir.into_dir().scavenge();
    effects.sort_by_key(|e| match e {
        Effect::Unmap { ptr, .. } => *ptr,
        _ => 0,
    });
    let mut expected = vec![
        Effect::Unmap { ptr: page, size: PAGE, fill: Some(0xdf) },
        Effect::Unmap { ptr: large, size: 10000, fill: Some(0xdf) },
        Effect::Unmap { ptr: cached, size: PAGE, fill: None },
    ];
    expected.sort_by_key(|e| match e {
        Effect::Unmap { ptr, .. } => *ptr,
        _ => 0,
    });
    assert_eq!(effects, expected);
    heap.memory.apply(&effects);
    assert!(heap.memory.regions.is_empty());
}

#[test]
fn sizes_for_alignments() {
    assert_eq!(align_to_size(0, 42, PAGE), Ok(Some(42)));
    assert_eq!(align_to_size(1, 42, PAGE), Ok(Some(42)));
    assert_eq!(align_to_size(8, 42, PAGE), Ok(Some(42)));
    assert_eq!(align_to_size(16, 42, PAGE), Ok(Some(64)));
    assert_eq!(align_to_size(16, 5, PAGE), Ok(Some(16)));
    assert_eq!(align_to_size(32, 42, PAGE), Ok(Some(64)));
    assert_eq!(align_to_size(32, 5, PAGE), Ok(Some(32)));
    assert_eq!(align_to_size(2048, 0, PAGE), Ok(Some(2048)));
    assert_eq!(align_to_size(2048, 5000, PAGE), Ok(Some(8192)));
    assert_eq!(align_to_size(4096, 42, PAGE), Ok(None));
    assert_eq!(align_to_size(8192, 42, 8192), Ok(None));
    assert_eq!(align_to_size(4096, 42, 8192), Ok(Some(4096)));
    assert_eq!(align_to_size(3, 42, PAGE), Ok(None));
    assert_eq!(align_to_size(48, 42, PAGE), Ok(None));
    assert_eq!(align_to_size(32, usize::MAX, PAGE), Err(Fault::Overflow));
    assert_eq!(align_to_size(16, usize::MAX, PAGE), Err(Fault::Overflow));
    assert_eq!(align_to_size(8, usize::MAX, PAGE), Ok(Some(usize::MAX)));
    assert_eq!(align_to_size(3, usize::MAX, PAGE), Ok(None));

    assert_eq!(next_power_of_two(0), Some(1));
    assert_eq!(next_power_of_two(1), Some(1));
    assert_eq!(next_power_of_two(2), Some(2));
    assert_eq!(next_power_of_two(3), Some(4));
    assert_eq!(next_power_of_two(4097), Some(8192));
    assert_eq!(next_power_of_two(usize::MAX / 2 + 1), Some(usize::MAX / 2 + 1));
    assert_eq!(next_power_of_two(usize::MAX / 2 + 2), None);
}

#[test]
fn a_new_directory_draws_its_canary() {
    let dir = Dir::init(8192, 0x9000).unwrap();
    assert!(dir.check_integrity());
    assert_eq!(dir.page_size(), 8192);
    assert_eq!(dir.total(), 128);
    assert_eq!(dir.free(), 128);
    assert_eq!(dir.cache_len(), 0);
    let handle = ThreadDir::from_dir(dir);
    assert_eq!(handle.dir().total(), 128);
    assert_eq!(handle.into_dir().scavenge(), vec![]);
}

#[test]
fn other_page_sizes() {
    let mut dir = Dir::with_canary(65536, 0x5000, 1);
    let draws = Draws { cache_head: true, chunk_head: true, slot: 127 };
    // The smallest class of a 64 KiB page has slots of 512 bytes.
    assert_eq!(
        dir.alloc_with(1, false, false, Some(0x100_0000), draws),
        Ok(AllocStep::Done {
            ptr: 0x100_0000 + 127 * 512,
            effects: vec![Effect::Fill { ptr: 0x100_0000 + 127 * 512, size: 512, byte: 0xd0 }],
        })
    );
    // Half a page is still a slot, a byte more is a mapping of its own.
    assert_eq!(
        dir.alloc_with(32768, false, false, Some(0x200_0000), draws),
        Ok(AllocStep::Done {
            ptr: 0x200_0000 + 32768,
            effects: vec![Effect::Fill { ptr: 0x200_0000 + 32768, size: 32768, byte: 0xd0 }],
        })
    );
    assert_eq!(
        dir.alloc_with(32769, false, false, Some(0x300_0000), draws),
        Ok(AllocStep::Done { ptr: 0x300_0000, effects: vec![] })
    );
    assert_eq!(dir.alloc_with(32769, false, false, Some(0x400_1000), draws), Err(Fault::Mapping));
}

#[test]
fn a_census_of_the_table() {
    let mut heap = Heap::new();
    let census = heap.dir.dir().census();
    assert_eq!((census.free, census.chunks, census.larges, census.cached), (128, 0, 0, 0));
    let a = heap.malloc(100, 0);
    let b = heap.malloc(100, 0);
    let c = heap.malloc(2000, 0);
    let d = heap.malloc(2000, 0);
    let e = heap.malloc(3000, 0);
    let _ = heap.malloc(0, 0);
    let k = heap.malloc_key(8, 0);
    heap.free(c);
    heap.free(d);
    let census = heap.dir.dir().census();
    assert_eq!((census.free, census.chunks, census.larges, census.cached), (123, 2, 2, 1));
    // The chunk of 2048-byte slots was full, then empty: it is in no list.
    assert_eq!(heap.dir.dir().free_chunks(11), 0);
    assert_eq!(heap.dir.dir().free_chunks(7), 1);
    assert_eq!(heap.dir.dir().free_chunks(0), 1);
    assert_eq!(heap.dir.dir().free_chunks(5), 0);
    for _ in 0..64 {
        heap.malloc(128, 0);
    }
    // 32 slots to a chunk: the first is full, and two more were needed.
    assert_eq!(heap.dir.dir().free_chunks(7), 1);
    let census = heap.dir.dir().census();
    assert_eq!((census.free, census.chunks, census.larges, census.cached), (122, 4, 2, 0));
    heap.free(a);
    heap.free(b);
    heap.free(e);
    heap.free(k);
    assert_eq!(heap.dir.dir().free_chunks(7), 2);
    let census = heap.dir.dir().census();
    assert_eq!((census.free, census.chunks, census.larges, census.cached), (124, 4, 0, 0));
}

#[test]
fn statistics_are_kept_when_asked_for() {
    let mut dir = Dir::with_canary(PAGE, 0x5000, 7);
    assert_eq!(dir.stats(), None);
    let draws = Draws { cache_head: true, chunk_head: true, slot: 0 };
    assert!(dir.alloc_with(100, false, false, Some(0x20_0000), draws).is_ok());
    assert_eq!(dir.stats(), None);
    assert!(dir.dealloc(0x20_0000).is_ok());
    dir.set_stats(true);
    let zero = tars::stats::Stats::new();
    assert_eq!(dir.stats(), Some(zero));
    assert_eq!(zero.chunks_classes, [0; 16]);

    // A slot from the cached page, counted under its class.
    assert!(dir.alloc_with(100, false, false, None, draws).is_ok());
    let stats = dir.stats().unwrap();
    assert_eq!((stats.chunks, stats.reused, stats.chunks_classes[7]), (1, 1, 1));
    assert!(dir.alloc_with(100, false, false, None, draws).is_ok());
    // An empty request: counted, but under no class.
    assert!(dir.alloc_with(0, false, false, Some(0x30_0000), draws).is_ok());
    let stats = dir.stats().unwrap();
    assert_eq!((stats.chunks, stats.reused, stats.chunks_classes[7]), (3, 1, 2));
    assert_eq!(stats.chunks_classes[0], 0);
    // Requests that are not served are not counted.
    assert!(matches!(dir.alloc_with(9000, false, false, None, draws), Ok(AllocStep::NeedMap(_))));
    assert_eq!(dir.alloc_with(9000, false, false, Some(0), draws), Err(Fault::Mapping));
    assert_eq!(dir.stats().unwrap().larges, 0);
    assert!(dir.alloc_with(9000, false, false, Some(0x40_0000), draws).is_ok());
    assert!(dir.alloc_with(100, false, true, Some(0x50_0000 + 3984), draws).is_ok());
    let stats = dir.stats().unwrap();
    assert_eq!((stats.larges, stats.larges_bytes, stats.keys), (2, 9100, 1));

    let key = 0x50_0000 + 3984;
    assert!(dir.protect(key, Prot::Read).is_ok());
    assert!(dir.protect(key, Prot::Read).is_ok());
    assert!(dir.protect(key, Prot::NoAccess).is_ok());
    assert!(dir.protect(key, Prot::Write).is_ok());
    assert!(dir.protect(key, Prot::ReadWrite).is_ok());
    assert!(dir.protect(0, Prot::Write).is_ok());
    assert!(dir.protect(key + 1, Prot::Write).is_err());
    let stats = dir.stats().unwrap();
    assert_eq!((stats.prot_reads, stats.prot_writes, stats.prot_nones), (2, 1, 1));

    assert!(dir.dealloc(0x30_0000).is_ok());
    assert!(dir.dealloc(0x20_0000 + 31 * 128).is_ok());
    assert!(dir.dealloc(0x20_0000 + 31 * 128).is_err());
    assert!(dir.dealloc(0).is_ok());
    let stats = dir.stats().unwrap();
    assert_eq!((stats.chunks_dealloc, stats.cached), (2, 0));
    assert!(dir.dealloc(0x20_0000).is_ok());
    assert!(dir.dealloc(key).is_ok());
    let stats = dir.stats().unwrap();
    assert_eq!((stats.chunks_dealloc, stats.cached), (3, 1));
    assert_eq!((stats.larges, stats.keys), (2, 1));

    dir.set_stats(false);
    assert_eq!(dir.stats(), None);
}

#[test]
fn counters_stay_at_the_top() {
    let mut stats = tars::stats::Stats::new();
    stats.note_large(usize::MAX - 5, true);
    stats.note_large(10, false);
    assert_eq!((stats.larges, stats.larges_bytes, stats.keys), (2, usize::MAX, 1));
    stats.note_small(16, true);
    stats.note_small(15, false);
    assert_eq!((stats.chunks, stats.reused, stats.chunks_classes[15]), (2, 1, 1));
    stats.note_freed(true);
    stats.note_protect(Prot::NoAccess);
    assert_eq!((stats.chunks_dealloc, stats.cached, stats.prot_nones), (1, 1, 1));
}

#[test]
fn the_least_alignment_that_counts_makes_room() {
    let mut heap = Heap::new();
    let empty = heap.malloc(0, 0);
    // With an alignment of 16 an empty request is one of 16 bytes.
    let p = heap.malloc(0, 16);
    assert!(p != empty);
    assert_eq!(p % 16, 0);
    // 42 bytes become 64: the slots of that class are 64 bytes apart.
    let a = heap.malloc(42, 16);
    let b = heap.malloc(42, 16);
    assert_eq!(a % 64, 0);
    assert_eq!(b % 64, 0);
    assert!(a.abs_diff(b) >= 64);
    heap.free(a);
    heap.free(b);
    heap.free(p);
}

#[test]
fn keys_and_moved_memory_are_aligned() {
    let mut heap = Heap::new();
    let mut align = 1;
    while align < PAGE {
        for n in [0, 1, 15, 16, 17, 42, 2047, 2048, 4097, 3 * PAGE + 5] {
            let k = heap.malloc_key(n, align);
            assert!(k != 0);
            assert_eq!(k % align, 0);
            heap.memory.write_bytes(k, n);
            let moved = heap.realloc_key(k, n + 100, align);
            assert!(moved != 0);
            assert_eq!(moved % align, 0);
            heap.memory.read_bytes(moved, n);
            heap.free(moved);

            let s = heap.malloc(n, align);
            let moved = heap.realloc(s, 2 * n + 1, align);
            assert!(moved != 0);
            assert_eq!(moved % align, 0);
            heap.free(moved);
        }
        align *= 2;
    }
}

#[test]
fn live_slots_share_no_byte() {
    let mut heap = Heap::new();
    let sizes = [1usize, 31, 32, 33, 100, 500, 1000, 2048, 64, 64, 64, 2000, 7, 129];
    let mut live: Vec<(usize, usize)> = Vec::new();
    for round in 0..40 {
        for (i, size) in sizes.iter().enumerate() {
            let p = heap.malloc(*size, 0);
            for (q, len) in live.iter() {
                assert!(p + size <= *q || q + len <= p);
            }
            live.push((p, *size));
            if (i + round) % 3 == 0 {
                let (q, _) = live.remove((i * 7 + round) % live.len());
                heap.free(q);
            }
        }
    }
    for (q, _) in live {
        heap.free(q);
    }
    assert!(heap.total() - heap.cache_len() <= heap.unused() + 1);
}
