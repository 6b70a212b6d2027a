//! The state of a directory as its contracts see it, and what its
//! operations make of it.
//!
//! A state is the live mappings by page, the lists of chunks with free
//! slots, and the cache. Every operation of the directory is a function on
//! states here, and what holds of the operations together is proved here.
use vstd::prelude::*;
use crate::fault::Fault;
use crate::mmap::{
    Prot, RangePos, lemma_page_base, lemma_page_ceil, page_base, page_ceil, page_rem, placement,
    valid_page_size,
};
use crate::region::{
    Effect, MAX_CHUNK_SHIFT, Region, RegionType, is_class_size, lemma_class_is_chunk_class,
    lemma_class_size, lemma_offset_of_slot, lemma_slot_of_offset, spec_chunk_index,
    spec_chunk_size, spec_fill_byte_alloc, spec_fill_byte_dealloc, spec_max_slot_index, steps_back,
};
use crate::stats::StatsView;
use crate::table::INITIAL_REGIONS;

verus! {

/// Whether emptied chunk pages are kept for reuse.
pub const USE_CACHE: bool = true;

/// The most emptied chunk pages that are kept.
pub const MAX_CACHE_SIZE: usize = 64;

/// What the directory knows of one live mapping.
pub struct RegionView {
    /// Address the mapping was handed out at.
    pub object: usize,
    /// Slot size of a chunk, byte size of a large object, zero otherwise.
    pub size: usize,
    pub kind: RegionType,
    /// The free slots of a chunk; empty for everything else.
    pub free: Set<int>,
}

/// All slots of a chunk with slots of `size` bytes.
pub open spec fn all_slots(size: usize, page_size: usize) -> Set<int> {
    Set::new(|k: int| 0 <= k < spec_max_slot_index(size, page_size))
}

/// The view of one record.
pub open spec fn region_view(r: Region, page_size: usize) -> RegionView {
    RegionView {
        object: r.object,
        size: r.size,
        kind: r.kind,
        free: if r.kind == RegionType::Chunk && r.size != 0 {
            Set::new(|k: int| 0 <= k < r.slots(page_size) && r.slot_free(k))
        } else {
            Set::empty()
        },
    }
}

/// The state of a directory.
pub struct DirView {
    pub page_size: usize,
    /// Slots of the region table.
    pub total: int,
    /// Slots of the region table in use: the number of live mappings.
    pub used: int,
    /// The live mappings, by the page their object starts in.
    pub regions: Map<usize, RegionView>,
    /// For each size class the chunks that have a free slot, first to last.
    /// Class 0 holds the page behind empty allocations once there is one.
    pub chunks: Seq<Seq<usize>>,
    /// The emptied chunk pages kept for reuse, first to last.
    pub cache: Seq<usize>,
    /// The statistics, if they are kept.
    pub stats: Option<StatsView>,
}

/// The state of a directory that has served nothing yet.
pub open spec fn empty_view(page_size: usize) -> DirView {
    DirView {
        page_size,
        total: INITIAL_REGIONS as int,
        used: 0,
        regions: Map::empty(),
        chunks: Seq::new(MAX_CHUNK_SHIFT as nat, |i: int| Seq::<usize>::empty()),
        cache: Seq::empty(),
        stats: None,
    }
}

/// A request for pages, to be answered with the address they were handed
/// out at: `size` bytes, filled with `fill`, under protection `prot`, the
/// address placed according to `pos` and aligned to `align` (zero for no
/// request).
#[derive(Clone, Copy, Debug, PartialEq, Eq)]
pub struct MapRequest {
    pub size: usize,
    pub align: usize,
    pub fill: Option<u8>,
    pub prot: Prot,
    pub pos: RangePos,
}

/// The draws an allocation makes.
#[derive(Clone, Copy, Debug, PartialEq, Eq)]
pub struct Draws {
    /// Reuse the first (set) or the last cached page.
    pub cache_head: bool,
    /// Take the slot from the first (set) or the last chunk of the class.
    pub chunk_head: bool,
    /// Where, modulo the number of slots, the search for a free slot
    /// starts.
    pub slot: usize,
}

/// The answer to a request for memory.
#[derive(Debug, PartialEq, Eq)]
pub enum AllocStep {
    /// Pages have to be mapped first. The request is to be repeated with
    /// the address they were handed out at.
    NeedMap(MapRequest),
    /// The memory at `ptr` is the caller's once the effects are carried
    /// out.
    Done { ptr: usize, effects: Vec<Effect> },
}

/// Whether a request is served by a mapping of its own.
pub open spec fn is_large(size: usize, force_large: bool, page_size: usize) -> bool {
    force_large || size > page_size / 2
}

/// The request for pages that a large allocation makes.
pub open spec fn large_request(size: usize, zero_fill: bool, force_large: bool) -> MapRequest {
    MapRequest {
        size,
        align: 0,
        fill: spec_fill_byte_alloc(zero_fill),
        prot: if force_large { Prot::Write } else { Prot::ReadWrite },
        pos: if force_large { RangePos::End } else { RangePos::Start },
    }
}

/// The request for the page of a new chunk.
pub open spec fn chunk_request(page_size: usize) -> MapRequest {
    MapRequest {
        size: page_size,
        align: 0,
        fill: spec_fill_byte_alloc(false),
        prot: Prot::ReadWrite,
        pos: RangePos::Start,
    }
}

/// Whether the pages for `size` bytes fit into the address space together
/// with their guard pages.
pub open spec fn mappable(size: usize, page_size: usize) -> bool {
    size + page_size - 1 <= usize::MAX && page_ceil(size as int, page_size) + 2 * page_size
        <= isize::MAX
}

impl DirView {
    /// The pages that have to be mapped before the request can be served,
    /// if any: always for a large allocation, and for a small one when
    /// neither a chunk of its class has a free slot nor a page is cached.
    pub open spec fn map_request(self, size: usize, zero_fill: bool, force_large: bool) -> Option<
        MapRequest,
    > {
        if is_large(size, force_large, self.page_size) {
            Some(large_request(size, zero_fill, force_large))
        } else if self.chunks[spec_chunk_index(spec_chunk_size(size, self.page_size)) as int].len()
            > 0 || self.cache.len() > 0 {
            None
        } else {
            Some(chunk_request(self.page_size))
        }
    }

    /// Whether `ptr` can be the answer to `request`: not null, in a page of
    /// its own that leaves room for a guard page before it, placed inside
    /// its pages as asked, and its pages and the guard page after them
    /// inside the address space.
    pub open spec fn accepts(self, request: MapRequest, ptr: usize) -> bool {
        let base = page_base(ptr, self.page_size);
        let region_size = page_ceil(request.size as int, self.page_size);
        &&& ptr != 0
        &&& base >= self.page_size
        &&& !self.regions.contains_key(base)
        &&& base + region_size + self.page_size <= usize::MAX
        &&& ptr - base == placement(
            request.size,
            region_size as usize,
            request.align,
            request.pos,
            0,
        )
    }

    /// Whether the table has to double before the next record goes in,
    /// and cannot.
    pub open spec fn table_full(self) -> bool {
        (self.total - self.used) * 4 < self.total && self.total * 2 > usize::MAX
    }

    /// The table size after a record has gone in.
    pub open spec fn grown(self) -> int {
        if (self.total - self.used) * 4 < self.total {
            2 * self.total
        } else {
            self.total
        }
    }

    /// The table size after a record has left.
    pub open spec fn shrunk(self) -> int {
        if self.total != INITIAL_REGIONS && (self.used - 1) * 16 < self.total {
            self.total / 2
        } else {
            self.total
        }
    }

    /// The state with a record added for the mapping at `object`.
    pub open spec fn with_region(self, region: RegionView) -> DirView {
        DirView {
            total: self.grown(),
            used: self.used + 1,
            regions: self.regions.insert(page_base(region.object, self.page_size), region),
            ..self
        }
    }

    /// The state with the record under `key` removed.
    pub open spec fn without_region(self, key: usize) -> DirView {
        DirView {
            total: self.shrunk(),
            used: self.used - 1,
            regions: self.regions.remove(key),
            ..self
        }
    }
}

/// The first or the last member of a list.
pub open spec fn end_of(list: Seq<usize>, head: bool) -> usize {
    if head {
        list.first()
    } else {
        list.last()
    }
}

/// A list without its member `object`.
pub open spec fn without(list: Seq<usize>, object: usize) -> Seq<usize> {
    list.remove(list.index_of(object))
}

/// The free slot met first when walking down from slot `start`, wrapping
/// round from slot 0 to slot `n - 1`.
pub open spec fn nearest_free(free: Set<int>, n: int, start: int) -> int {
    choose|k: int|
        0 <= k < n && free.contains(k) && forall|j: int|
            0 <= j < n && free.contains(j) ==> steps_back(start, k, n) <= steps_back(start, j, n)
}

/// The view of a fresh chunk at `object` with slots of `class` bytes.
pub open spec fn fresh_chunk(object: usize, class: usize, page_size: usize) -> RegionView {
    RegionView {
        object,
        size: class,
        kind: RegionType::Chunk,
        free: if class == 0 {
            Set::empty()
        } else {
            all_slots(class, page_size)
        },
    }
}

impl DirView {
    /// The list index of the class of a small request.
    pub open spec fn class_index(self, size: usize) -> int {
        spec_chunk_index(spec_chunk_size(size, self.page_size)) as int
    }

    /// The state once the class of slots of `class` bytes has a chunk
    /// with a free slot: as it is if there is one, else with a cached page
    /// made a chunk of the class, else with the page at `mapped` made one.
    pub open spec fn with_chunk(self, class: usize, mapped: usize, cache_head: bool) -> DirView {
        let i = spec_chunk_index(class) as int;
        if self.chunks[i].len() > 0 {
            self
        } else if self.cache.len() > 0 {
            let object = end_of(self.cache, cache_head);
            DirView {
                regions: self.regions.insert(object, fresh_chunk(object, class, self.page_size)),
                chunks: self.chunks.update(i, seq![object]),
                cache: without(self.cache, object),
                ..self
            }
        } else {
            DirView {
                chunks: self.chunks.update(i, seq![mapped]),
                ..self.with_region(fresh_chunk(mapped, class, self.page_size))
            }
        }
    }

    /// What has to happen to the page that becomes a chunk: a cached page
    /// is made accessible again, and the page behind empty allocations
    /// loses all access.
    pub open spec fn chunk_effects(self, class: usize, mapped: usize, cache_head: bool) -> Seq<
        Effect,
    > {
        let i = spec_chunk_index(class) as int;
        if self.chunks[i].len() > 0 {
            Seq::empty()
        } else {
            let object = if self.cache.len() > 0 {
                end_of(self.cache, cache_head)
            } else {
                mapped
            };
            let reuse = if self.cache.len() > 0 {
                seq![Effect::Protect { ptr: object, size: self.page_size, prot: Prot::ReadWrite }]
            } else {
                Seq::empty()
            };
            let seal = if class == 0 {
                seq![Effect::Protect { ptr: object, size: self.page_size, prot: Prot::NoAccess }]
            } else {
                Seq::empty()
            };
            reuse + seal
        }
    }

    /// The chunk a slot of `class` bytes is taken from.
    pub open spec fn chosen_chunk(self, class: usize, chunk_head: bool) -> usize {
        end_of(self.chunks[spec_chunk_index(class) as int], chunk_head)
    }

    /// The slot that is taken.
    pub open spec fn chosen_slot(self, class: usize, chunk_head: bool, draw: usize) -> int {
        let n = spec_max_slot_index(class, self.page_size);
        nearest_free(self.regions[self.chosen_chunk(class, chunk_head)].free, n, draw as int % n)
    }

    /// The address a small request is served with. Empty requests all get
    /// the address of the one page kept for them.
    pub open spec fn slot_ptr(self, class: usize, chunk_head: bool, draw: usize) -> usize {
        if class == 0 {
            self.chosen_chunk(class, chunk_head)
        } else {
            (self.chosen_chunk(class, chunk_head) + self.chosen_slot(class, chunk_head, draw)
                * class) as usize
        }
    }

    /// The state with the chosen slot taken. A chunk that is full leaves
    /// the list of its class.
    pub open spec fn slot_taken(self, class: usize, chunk_head: bool, draw: usize) -> DirView {
        if class == 0 {
            self
        } else {
            let i = spec_chunk_index(class) as int;
            let chunk = self.chosen_chunk(class, chunk_head);
            let region = self.regions[chunk];
            let free = region.free.remove(self.chosen_slot(class, chunk_head, draw));
            DirView {
                regions: self.regions.insert(chunk, RegionView { free, ..region }),
                chunks: if free =~= Set::<int>::empty() {
                    self.chunks.update(i, without(self.chunks[i], chunk))
                } else {
                    self.chunks
                },
                ..self
            }
        }
    }

    /// The fault that refuses a request for memory, if any.
    pub open spec fn alloc_fault(
        self,
        size: usize,
        zero_fill: bool,
        force_large: bool,
        mapped: Option<usize>,
    ) -> Option<Fault> {
        let request = self.map_request(size, zero_fill, force_large);
        if is_large(size, force_large, self.page_size) && !mappable(size, self.page_size) {
            Some(Fault::Overflow)
        } else if mapped is Some && request is None {
            Some(Fault::Mapping)
        } else if mapped is Some && !self.accepts(request.unwrap(), mapped.unwrap()) {
            Some(Fault::Mapping)
        } else if mapped is Some && self.table_full() {
            Some(Fault::Overflow)
        } else {
            None
        }
    }

    /// The state after a request for memory has been served.
    pub open spec fn alloc_state(
        self,
        size: usize,
        force_large: bool,
        mapped: usize,
        draws: Draws,
    ) -> DirView {
        if is_large(size, force_large, self.page_size) {
            self.with_region(
                RegionView { object: mapped, size, kind: RegionType::Large, free: Set::empty() },
            )
        } else {
            let class = spec_chunk_size(size, self.page_size);
            self.with_chunk(class, mapped, draws.cache_head).slot_taken(
                class,
                draws.chunk_head,
                draws.slot,
            )
        }
    }

    /// The address a request for memory is served with.
    pub open spec fn alloc_ptr(self, size: usize, force_large: bool, mapped: usize, draws: Draws) -> usize {
        if is_large(size, force_large, self.page_size) {
            mapped
        } else {
            let class = spec_chunk_size(size, self.page_size);
            self.with_chunk(class, mapped, draws.cache_head).slot_ptr(
                class,
                draws.chunk_head,
                draws.slot,
            )
        }
    }

    /// What is left to do to memory once a request has been served. The
    /// pages of a large allocation come filled; a slot is filled now.
    pub open spec fn alloc_effects(
        self,
        size: usize,
        zero_fill: bool,
        force_large: bool,
        mapped: usize,
        draws: Draws,
    ) -> Seq<Effect> {
        if is_large(size, force_large, self.page_size) {
            Seq::empty()
        } else {
            let class = spec_chunk_size(size, self.page_size);
            let fill = if class != 0 && spec_fill_byte_alloc(zero_fill) is Some {
                seq![
                    Effect::Fill {
                        ptr: self.alloc_ptr(size, force_large, mapped, draws),
                        size: class,
                        byte: spec_fill_byte_alloc(zero_fill).unwrap(),
                    },
                ]
            } else {
                Seq::empty()
            };
            self.chunk_effects(class, mapped, draws.cache_head) + fill
        }
    }
}

impl DirView {
    /// The state with the statistics `stats`.
    pub open spec fn noted(self, stats: Option<StatsView>) -> DirView {
        DirView { stats, ..self }
    }

    /// The statistics after a request for `size` bytes has been served.
    pub open spec fn alloc_noted(self, size: usize, force_large: bool) -> Option<StatsView> {
        match self.stats {
            None => None,
            Some(stats) => Some(
                if is_large(size, force_large, self.page_size) {
                    stats.large(size, force_large)
                } else {
                    stats.small(
                        self.class_index(size),
                        self.chunks[self.class_index(size)].len() == 0 && self.cache.len() > 0,
                    )
                },
            ),
        }
    }

    /// Whether `r` and the state `after` are what a request for memory
    /// comes to when it is made in the state `self` with the draws
    /// `draws`.
    pub open spec fn alloc_outcome(
        self,
        after: DirView,
        r: Result<AllocStep, Fault>,
        size: usize,
        zero_fill: bool,
        force_large: bool,
        mapped: Option<usize>,
        draws: Draws,
    ) -> bool {
        let page = if mapped is Some { mapped.unwrap() } else { 0 };
        match self.alloc_fault(size, zero_fill, force_large, mapped) {
            Some(fault) => r == Err::<AllocStep, Fault>(fault) && after == self,
            None => if mapped is None && self.map_request(size, zero_fill, force_large) is Some {
                r == Ok::<AllocStep, Fault>(
                    AllocStep::NeedMap(self.map_request(size, zero_fill, force_large).unwrap()),
                ) && after == self
            } else {
                &&& r matches Ok(AllocStep::Done { ptr, effects })
                &&& ptr == self.alloc_ptr(size, force_large, page, draws)
                &&& effects@ == self.alloc_effects(size, zero_fill, force_large, page, draws)
                &&& after == self.alloc_state(size, force_large, page, draws).noted(
                    self.alloc_noted(size, force_large),
                )
                &&& ptr != 0
            },
        }
    }

    /// `alloc_outcome` without the statistics: what a request for memory
    /// comes to before it is counted.
    pub open spec fn alloc_served(
        self,
        after: DirView,
        r: Result<AllocStep, Fault>,
        size: usize,
        zero_fill: bool,
        force_large: bool,
        mapped: Option<usize>,
        draws: Draws,
    ) -> bool {
        let page = if mapped is Some { mapped.unwrap() } else { 0 };
        match self.alloc_fault(size, zero_fill, force_large, mapped) {
            Some(fault) => r == Err::<AllocStep, Fault>(fault) && after == self,
            None => if mapped is None && self.map_request(size, zero_fill, force_large) is Some {
                r == Ok::<AllocStep, Fault>(
                    AllocStep::NeedMap(self.map_request(size, zero_fill, force_large).unwrap()),
                ) && after == self
            } else {
                &&& r matches Ok(AllocStep::Done { ptr, effects })
                &&& ptr == self.alloc_ptr(size, force_large, page, draws)
                &&& effects@ == self.alloc_effects(size, zero_fill, force_large, page, draws)
                &&& after == self.alloc_state(size, force_large, page, draws)
                &&& ptr != 0
            },
        }
    }

    /// The page `ptr` lies in.
    pub open spec fn page_of(self, ptr: usize) -> usize {
        page_base(ptr, self.page_size)
    }

    /// What a lookup of `ptr` finds: the record of the page of `ptr` if it
    /// is a chunk, or if `ptr` is the address of its object.
    pub open spec fn find(self, ptr: usize) -> Option<RegionView> {
        let key = page_base(ptr, self.page_size);
        if self.regions.contains_key(key) && (self.regions[key].kind == RegionType::Chunk
            || self.regions[key].object == ptr) {
            Some(self.regions[key])
        } else {
            None
        }
    }

    /// The fault that refuses to free `ptr`, if any. Null and the address
    /// of the page behind empty allocations are always accepted.
    pub open spec fn dealloc_fault(self, ptr: usize) -> Option<Fault> {
        if ptr == 0 {
            None
        } else {
            match self.find(ptr) {
                None => Some(Fault::UnknownPointer),
                Some(region) => match region.kind {
                    RegionType::Chunk => if region.size == 0 {
                        None
                    } else if (ptr - region.object) % (region.size as int) != 0 {
                        Some(Fault::Misaligned)
                    } else if region.free.contains((ptr - region.object) / (region.size as int)) {
                        Some(Fault::DoubleFree)
                    } else {
                        None
                    },
                    RegionType::Large => None,
                    _ => Some(Fault::WrongKind),
                },
            }
        }
    }

    /// Whether freeing `ptr` gives a slot back to a chunk.
    pub open spec fn frees_slot(self, ptr: usize) -> bool {
        ptr != 0 && self.find(ptr) is Some && self.find(ptr).unwrap().kind == RegionType::Chunk
            && self.find(ptr).unwrap().size != 0
    }

    /// Whether freeing `ptr` releases a mapping of its own.
    pub open spec fn frees_large(self, ptr: usize) -> bool {
        ptr != 0 && self.find(ptr) is Some && self.find(ptr).unwrap().kind == RegionType::Large
    }

    /// Whether freeing `ptr` takes the last allocation out of a chunk.
    pub open spec fn empties_chunk(self, ptr: usize) -> bool {
        let region = self.find(ptr).unwrap();
        self.frees_slot(ptr) && region.free.insert((ptr - region.object) / (region.size as int))
            == all_slots(region.size, self.page_size)
    }

    /// The chunk lists after `ptr` has been freed: a chunk that was full
    /// enters the list of its class, one that is empty leaves it.
    pub open spec fn dealloc_chunks(self, ptr: usize) -> Seq<Seq<usize>> {
        let region = self.find(ptr).unwrap();
        let i = spec_chunk_index(region.size) as int;
        let entered = if region.free =~= Set::<int>::empty() {
            self.chunks.update(i, seq![region.object] + self.chunks[i])
        } else {
            self.chunks
        };
        if self.empties_chunk(ptr) {
            entered.update(i, without(entered[i], region.object))
        } else {
            entered
        }
    }

    /// The state after `ptr` has been freed. A chunk that is emptied goes
    /// to the cache if that has room and is given up otherwise.
    pub open spec fn dealloc_state(self, ptr: usize) -> DirView {
        let key = page_base(ptr, self.page_size);
        if self.frees_large(ptr) {
            self.without_region(key)
        } else if self.frees_slot(ptr) {
            let region = self.find(ptr).unwrap();
            let slot = (ptr - region.object) / (region.size as int);
            if !self.empties_chunk(ptr) {
                DirView {
                    regions: self.regions.insert(
                        key,
                        RegionView { free: region.free.insert(slot), ..region },
                    ),
                    chunks: self.dealloc_chunks(ptr),
                    ..self
                }
            } else if self.cache.len() < MAX_CACHE_SIZE {
                DirView {
                    regions: self.regions.insert(
                        key,
                        RegionView {
                            object: region.object,
                            size: 0,
                            kind: RegionType::Cache,
                            free: Set::empty(),
                        },
                    ),
                    chunks: self.dealloc_chunks(ptr),
                    cache: seq![region.object] + self.cache,
                    ..self
                }
            } else {
                DirView { chunks: self.dealloc_chunks(ptr), ..self.without_region(key) }
            }
        } else {
            self
        }
    }

    /// What has to happen to memory when `ptr` is freed: a slot is
    /// overwritten, and the page of a chunk that is emptied loses all
    /// access or is released as it is; a large object is overwritten and
    /// released.
    pub open spec fn dealloc_effects(self, ptr: usize) -> Seq<Effect> {
        if self.frees_large(ptr) {
            let region = self.find(ptr).unwrap();
            seq![
                Effect::Unmap {
                    ptr: region.object,
                    size: region.size,
                    fill: spec_fill_byte_dealloc(),
                },
            ]
        } else if self.frees_slot(ptr) {
            let region = self.find(ptr).unwrap();
            let wipe = seq![
                Effect::Fill {
                    ptr,
                    size: region.size,
                    byte: spec_fill_byte_dealloc().unwrap(),
                },
            ];
            if !self.empties_chunk(ptr) {
                wipe
            } else if self.cache.len() < MAX_CACHE_SIZE {
                wipe + seq![
                    Effect::Protect {
                        ptr: region.object,
                        size: self.page_size,
                        prot: Prot::NoAccess,
                    },
                ]
            } else {
                wipe + seq![Effect::Unmap { ptr: region.object, size: self.page_size, fill: None }]
            }
        } else {
            Seq::empty()
        }
    }

    /// The statistics after `ptr` has been freed: a slot given back is
    /// counted, and so is a page that goes to the cache.
    pub open spec fn dealloc_noted(self, ptr: usize) -> Option<StatsView> {
        match self.stats {
            None => None,
            Some(stats) => Some(
                if ptr != 0 && self.find(ptr) is Some && self.find(ptr).unwrap().kind
                    == RegionType::Chunk {
                    stats.freed(self.empties_chunk(ptr) && self.cache.len() < MAX_CACHE_SIZE)
                } else {
                    stats
                },
            ),
        }
    }

    /// `dealloc_outcome` without the statistics: what a free comes to
    /// before it is counted.
    pub open spec fn dealloc_served(self, after: DirView, r: Result<Vec<Effect>, Fault>, ptr: usize) -> bool {
        match self.dealloc_fault(ptr) {
            Some(fault) => r == Err::<Vec<Effect>, Fault>(fault) && after == self,
            None => {
                &&& r matches Ok(effects)
                &&& effects@ == self.dealloc_effects(ptr)
                &&& after == self.dealloc_state(ptr)
            },
        }
    }

    /// Whether `r` and the state `after` are what a free of `ptr` comes to
    /// in the state `self`: a fault that leaves the state as it is, or the
    /// effects and the state of a free that is accepted.
    pub open spec fn dealloc_outcome(self, after: DirView, r: Result<Vec<Effect>, Fault>, ptr: usize) -> bool {
        match self.dealloc_fault(ptr) {
            Some(fault) => r == Err::<Vec<Effect>, Fault>(fault) && after == self,
            None => {
                &&& r matches Ok(effects)
                &&& effects@ == self.dealloc_effects(ptr)
                &&& after == self.dealloc_state(ptr).noted(self.dealloc_noted(ptr))
            },
        }
    }

    /// The statistics after the protection of `ptr` has been changed.
    pub open spec fn protect_noted(self, ptr: usize, prot: Prot) -> Option<StatsView> {
        match self.stats {
            None => None,
            Some(stats) => Some(if ptr != 0 { stats.protected(prot) } else { stats }),
        }
    }

    /// Whether `r` and the state `after` are what a change of the
    /// protection of `ptr` to `prot` comes to in the state `self`: a fault,
    /// or the change that is asked of the driver; the state changes in its
    /// statistics alone.
    pub open spec fn protect_outcome(
        self,
        after: DirView,
        r: Result<Vec<Effect>, Fault>,
        ptr: usize,
        prot: Prot,
    ) -> bool {
        match self.protect_fault(ptr) {
            Some(fault) => r == Err::<Vec<Effect>, Fault>(fault) && after == self,
            None => {
                &&& r matches Ok(effects)
                &&& effects@ == self.protect_effects(ptr, prot)
                &&& after == self.noted(self.protect_noted(ptr, prot))
            },
        }
    }

    /// The fault that refuses to change the protection of `ptr`, if any:
    /// only the address of a large object is accepted, and null.
    pub open spec fn protect_fault(self, ptr: usize) -> Option<Fault> {
        if ptr == 0 {
            None
        } else {
            match self.find(ptr) {
                None => Some(Fault::UnknownPointer),
                Some(region) => if region.kind == RegionType::Large {
                    None
                } else {
                    Some(Fault::WrongKind)
                },
            }
        }
    }

    /// The change of protection that is asked of the driver.
    pub open spec fn protect_effects(self, ptr: usize, prot: Prot) -> Seq<Effect> {
        if ptr == 0 {
            Seq::empty()
        } else {
            seq![
                Effect::Protect {
                    ptr: self.find(ptr).unwrap().object,
                    size: self.find(ptr).unwrap().size,
                    prot,
                },
            ]
        }
    }
}

impl DirView {
    /// The members of the cache are cached pages.
    pub open spec fn cache_sound(self) -> bool {
        forall|k: int|
            #![trigger self.cache[k]]
            0 <= k < self.cache.len() ==> self.regions.contains_key(self.cache[k])
                && self.regions[self.cache[k]].kind == RegionType::Cache
    }

    /// The members of the chunk lists are chunks of the lists' classes.
    pub open spec fn chunks_sound(self) -> bool {
        forall|i: int, k: int|
            #![trigger self.chunks[i][k]]
            0 <= i < MAX_CHUNK_SHIFT && 0 <= k < self.chunks[i].len() ==> {
                &&& self.regions.contains_key(self.chunks[i][k])
                &&& self.regions[self.chunks[i][k]].kind == RegionType::Chunk
                &&& self.regions[self.chunks[i][k]].object == self.chunks[i][k]
                &&& spec_chunk_index(self.regions[self.chunks[i][k]].size) == i
            }
    }

    /// What a reallocation copies from the old allocation and what
    /// becomes of it: `size` bytes, or all the old allocation has room
    /// for if that is less, move to `new`; then the old one is freed.
    pub open spec fn moved_effects(self, ptr: usize, new: usize, size: usize) -> Seq<Effect> {
        let old_size = self.find(ptr).unwrap().size;
        seq![
            Effect::Copy { src: ptr, dst: new, size: if size < old_size { size } else { old_size } },
        ] + self.dealloc_effects(ptr)
    }

    /// Whether `r` and the state `after` are what a reallocation of `ptr`
    /// comes to when it is made in the state `self` with the draws
    /// `draws`: refused like a free of `ptr` would be, else answered like
    /// a request for `size` bytes, and where that is served, the old
    /// allocation moved and freed after it.
    pub open spec fn realloc_outcome(
        self,
        after: DirView,
        r: Result<AllocStep, Fault>,
        ptr: usize,
        size: usize,
        zero_fill: bool,
        force_large: bool,
        mapped: Option<usize>,
        draws: Draws,
    ) -> bool {
        let page = if mapped is Some { mapped.unwrap() } else { 0 };
        let served = self.alloc_state(size, force_large, page, draws).noted(
            self.alloc_noted(size, force_large),
        );
        if self.dealloc_fault(ptr) is Some {
            r == Err::<AllocStep, Fault>(self.dealloc_fault(ptr).unwrap()) && after == self
        } else if ptr == 0 || self.alloc_fault(size, zero_fill, force_large, mapped) is Some || (
        mapped is None && self.map_request(size, zero_fill, force_large) is Some) {
            self.alloc_outcome(after, r, size, zero_fill, force_large, mapped, draws)
        } else {
            &&& r matches Ok(AllocStep::Done { ptr: new, effects })
            &&& new == self.alloc_ptr(size, force_large, page, draws)
            &&& new != 0
            &&& effects@ == self.alloc_effects(size, zero_fill, force_large, page, draws)
                + served.moved_effects(ptr, new, size)
            &&& after == served.dealloc_state(ptr).noted(served.dealloc_noted(ptr))
        }
    }
}

/// A record is still there, and as it was, after a class has been given
/// a chunk, unless it was a cached page.
pub proof fn lemma_with_chunk_keeps(
    v: DirView,
    key: usize,
    class: usize,
    page: usize,
    cache_head: bool,
)
    requires
        v.cache_sound(),
        valid_page_size(v.page_size),
        v.regions.contains_key(key),
        v.regions[key].kind != RegionType::Cache,
        v.chunks[spec_chunk_index(class) as int].len() == 0 && v.cache.len() == 0 ==> v.accepts(
            chunk_request(v.page_size),
            page,
        ),
    ensures
        v.with_chunk(class, page, cache_head).regions.contains_key(key),
        v.with_chunk(class, page, cache_head).regions[key] == v.regions[key],
        v.with_chunk(class, page, cache_head).page_size == v.page_size,
{
    let i = spec_chunk_index(class) as int;
    if v.chunks[i].len() > 0 {
    } else if v.cache.len() > 0 {
        let o = end_of(v.cache, cache_head);
        assert(v.cache[0] == v.cache.first());
        assert(v.cache[v.cache.len() - 1] == v.cache.last());
        assert(v.regions[o].kind == RegionType::Cache);
    } else {
        lemma_page_base(page, v.page_size);
    }
}

/// A record that has lost a free slot at most still refuses and accepts
/// the same frees, but for that slot.
pub proof fn lemma_slot_taken_keeps(
    v: DirView,
    ptr: usize,
    class: usize,
    chunk_head: bool,
    draw: usize,
)
    requires
        ptr != 0,
        v.dealloc_fault(ptr) is None,
    ensures
        v.slot_taken(class, chunk_head, draw).find(ptr) is Some,
        v.slot_taken(class, chunk_head, draw).find(ptr).unwrap().size == v.find(ptr).unwrap().size,
        v.slot_taken(class, chunk_head, draw).find(ptr).unwrap().kind == v.find(ptr).unwrap().kind,
        v.slot_taken(class, chunk_head, draw).find(ptr).unwrap().object
            == v.find(ptr).unwrap().object,
        v.slot_taken(class, chunk_head, draw).dealloc_fault(ptr) is None,
{
    let key = page_base(ptr, v.page_size);
    let taken = v.slot_taken(class, chunk_head, draw);
    if class != 0 {
        let chunk = v.chosen_chunk(class, chunk_head);
        let slot = v.chosen_slot(class, chunk_head, draw);
        if chunk == key {
            assert(taken.regions[key].free == v.regions[key].free.remove(slot));
        } else {
            assert(taken.regions[key] == v.regions[key]);
        }
    }
}

/// An allocation is still there, and as it was, after a request for
/// memory has been served.
pub proof fn lemma_alloc_keeps(
    v: DirView,
    ptr: usize,
    size: usize,
    zero_fill: bool,
    force_large: bool,
    mapped: Option<usize>,
    draws: Draws,
)
    requires
        v.cache_sound(),
        valid_page_size(v.page_size),
        ptr != 0,
        v.dealloc_fault(ptr) is None,
        v.alloc_fault(size, zero_fill, force_large, mapped) is None,
        !(mapped is None && v.map_request(size, zero_fill, force_large) is Some),
    ensures
        ({
            let page = if mapped is Some { mapped.unwrap() } else { 0 };
            let served = v.alloc_state(size, force_large, page, draws);
            &&& served.find(ptr) is Some
            &&& served.find(ptr).unwrap().size == v.find(ptr).unwrap().size
            &&& served.find(ptr).unwrap().kind == v.find(ptr).unwrap().kind
            &&& served.find(ptr).unwrap().object == v.find(ptr).unwrap().object
            &&& served.dealloc_fault(ptr) is None
        }),
{
    let ps = v.page_size;
    let page = if mapped is Some { mapped.unwrap() } else { 0 };
    let key = page_base(ptr, ps);
    if is_large(size, force_large, ps) {
        let served = v.alloc_state(size, force_large, page, draws);
        assert(page_base(page, ps) != key);
        assert(served.regions[key] == v.regions[key]);
    } else {
        let class = spec_chunk_size(size, ps);
        let made = v.with_chunk(class, page, draws.cache_head);
        lemma_with_chunk_keeps(v, key, class, page, draws.cache_head);
        assert(made.find(ptr) == v.find(ptr));
        assert(made.dealloc_fault(ptr) is None);
        lemma_slot_taken_keeps(made, ptr, class, draws.chunk_head, draws.slot);
    }
}

/// The release of a mapping when its directory is torn down: what was in
/// use is overwritten first, a cached page is released as it is.
pub open spec fn teardown(region: RegionView, page_size: usize) -> Effect {
    match region.kind {
        RegionType::Large => Effect::Unmap {
            ptr: region.object,
            size: region.size,
            fill: spec_fill_byte_dealloc(),
        },
        RegionType::Chunk => Effect::Unmap {
            ptr: region.object,
            size: page_size,
            fill: spec_fill_byte_dealloc(),
        },
        _ => Effect::Unmap { ptr: region.object, size: page_size, fill: None },
    }
}

impl DirView {
    /// What holds of the record under `key` in every state a directory
    /// can be in: it sits under the page of its object; a chunk and a
    /// cached page start their page; a chunk has a taken slot, and is in
    /// the list of its class if it has a free one as well; the page behind
    /// empty allocations is in list 0; a cached page is in the cache.
    pub open spec fn region_sound(self, key: usize) -> bool {
        let region = self.regions[key];
        &&& page_base(region.object, self.page_size) == key
        &&& key >= self.page_size
        &&& match region.kind {
            RegionType::Chunk => {
                &&& region.object == key
                &&& key + 2 * self.page_size <= usize::MAX
                &&& if region.size == 0 {
                    self.chunks[0].contains(key)
                } else {
                    &&& is_class_size(region.size, self.page_size)
                    &&& region.free.subset_of(all_slots(region.size, self.page_size))
                    &&& region.free != all_slots(region.size, self.page_size)
                    &&& self.chunks[spec_chunk_index(region.size) as int].contains(key)
                        <==> region.free != Set::<int>::empty()
                }
            },
            RegionType::Cache => region.object == key && key + 2 * self.page_size <= usize::MAX
                && region.size == 0 && self.cache.contains(key),
            RegionType::Large => true,
            RegionType::Free => false,
        }
    }

    /// What holds of every state a directory can be in.
    #[verifier::opaque]
    pub open spec fn sound(self) -> bool {
        &&& valid_page_size(self.page_size)
        &&& self.chunks.len() == MAX_CHUNK_SHIFT
        &&& self.chunks[0].len() <= 1
        &&& self.cache.len() <= MAX_CACHE_SIZE
        &&& self.cache.no_duplicates()
        &&& self.cache_sound()
        &&& self.chunks_sound()
        &&& self.regions.dom().finite()
        &&& self.used == self.regions.dom().len()
        &&& self.used <= self.total
        &&& forall|key: usize| #[trigger] self.regions.contains_key(key) ==> self.region_sound(key)
    }

    /// Whether `ptr` is the address of an allocation: whether freeing it
    /// is accepted and gives a slot or a mapping back.
    pub open spec fn allocated(self, ptr: usize) -> bool {
        self.dealloc_fault(ptr) is None && (self.frees_slot(ptr) || self.frees_large(ptr))
    }
}

/// The statistics have no say in what is allocated and what is sound.
pub proof fn lemma_noted(v: DirView, stats: Option<StatsView>, ptr: usize)
    ensures
        v.noted(stats).find(ptr) == v.find(ptr),
        v.noted(stats).dealloc_fault(ptr) == v.dealloc_fault(ptr),
        v.noted(stats).allocated(ptr) == v.allocated(ptr),
        v.noted(stats).sound() == v.sound(),
        v.noted(stats).cache_sound() == v.cache_sound(),
{
    reveal(DirView::sound);
    let w = v.noted(stats);
    assert(w.regions == v.regions && w.chunks == v.chunks && w.cache == v.cache);
    assert forall|key: usize| w.region_sound(key) == v.region_sound(key) by {}
}

/// Nothing is allocated in a directory that has served nothing.
pub proof fn lemma_empty_allocated(page_size: usize, ptr: usize)
    ensures
        !empty_view(page_size).allocated(ptr),
{
}

/// An address inside the page that starts at `page` lies in that page.
pub proof fn lemma_in_page(page: usize, offset: int, page_size: usize)
    requires
        valid_page_size(page_size),
        page_rem(page as int, page_size) == 0,
        0 <= offset < page_size,
        page + offset <= usize::MAX,
    ensures
        page_base((page + offset) as usize, page_size) == page,
{
}

/// With nothing allocated, every record but that of the page behind
/// empty allocations is a cached page: the slots of the region table that
/// are in use are at most one more than the cache is long.
pub proof fn lemma_idle_capacity(v: DirView)
    requires
        v.sound(),
        forall|ptr: usize| !v.allocated(ptr),
    ensures
        v.used <= v.cache.len() + 1,
        v.total - v.cache.len() <= (v.total - v.used) + 1,
{
    reveal(DirView::sound);
    let ps = v.page_size;
    let listed = v.cache.to_set().union(v.chunks[0].to_set());
    assert forall|key: usize| v.regions.dom().contains(key) implies listed.contains(key) by {
        assert(v.regions.contains_key(key));
        assert(v.region_sound(key));
        let region = v.regions[key];
        if region.kind == RegionType::Large {
            assert(v.find(region.object) == Some(region));
            lemma_page_base(region.object, ps);
            assert(region.object != 0);
            assert(v.allocated(region.object));
        } else if region.kind == RegionType::Chunk && region.size != 0 {
            let slots = all_slots(region.size, ps);
            assert(exists|slot: int| slots.contains(slot) && !region.free.contains(slot)) by {
                if forall|slot: int| slots.contains(slot) ==> region.free.contains(slot) {
                    assert(region.free =~= slots);
                }
            }
            let slot = choose|slot: int| slots.contains(slot) && !region.free.contains(slot);
            lemma_offset_of_slot(slot, region.size, ps);
            lemma_page_base(key, ps);
            let ptr = (key + slot * region.size) as usize;
            lemma_in_page(key, slot * region.size, ps);
            assert(v.find(ptr) == Some(region));
            let offset = ptr - region.object;
            assert(offset == slot * region.size);
            assert(offset % (region.size as int) == 0);
            assert(offset / (region.size as int) == slot);
            assert(ptr != 0);
            assert(v.frees_slot(ptr));
            assert(v.dealloc_fault(ptr) is None);
            assert(v.allocated(ptr));
        } else if region.kind == RegionType::Chunk {
            assert(v.chunks[0].to_set().contains(key));
        } else {
            assert(v.cache.to_set().contains(key));
        }
    }
    v.cache.lemma_cardinality_of_set();
    v.chunks[0].lemma_cardinality_of_set();
    vstd::seq_lib::seq_to_set_is_finite(v.cache);
    vstd::seq_lib::seq_to_set_is_finite(v.chunks[0]);
    vstd::set_lib::lemma_len_union(v.cache.to_set(), v.chunks[0].to_set());
    assert(listed.finite());
    vstd::set_lib::lemma_len_subset(v.regions.dom(), listed);
}

/// The slot an address in a chunk page names.
pub proof fn lemma_slot_address(page: usize, ptr: usize, size: usize, page_size: usize)
    requires
        valid_page_size(page_size),
        is_class_size(size, page_size),
        page_base(ptr, page_size) == page,
        (ptr - page) % (size as int) == 0,
    ensures
        0 <= (ptr - page) / (size as int) < spec_max_slot_index(size, page_size),
        ptr == page + ((ptr - page) / (size as int)) * size,
{
    lemma_page_base(ptr, page_size);
    lemma_slot_of_offset((ptr - page) as usize, size, page_size);
}

/// Freeing an allocation takes it, and nothing else, out of what is
/// allocated.
pub proof fn lemma_dealloc_allocated(v: DirView, ptr: usize, other: usize)
    requires
        v.sound(),
        v.allocated(ptr),
    ensures
        v.dealloc_state(ptr).allocated(other) <==> v.allocated(other) && other != ptr,
{
    reveal(DirView::sound);
    let ps = v.page_size;
    let after = v.dealloc_state(ptr);
    let key = page_base(ptr, ps);
    let region = v.regions[key];
    assert(v.regions.contains_key(key));
    assert(v.region_sound(key));
    let okey = page_base(other, ps);
    lemma_page_base(ptr, ps);
    lemma_page_base(other, ps);
    if okey != key {
        assert(after.regions.contains_key(okey) == v.regions.contains_key(okey));
        if v.regions.contains_key(okey) {
            assert(after.regions[okey] == v.regions[okey]);
        }
        assert(after.find(other) == v.find(other));
    } else if region.kind == RegionType::Large {
        assert(!after.regions.contains_key(key));
    } else {
        let size = region.size;
        let slot = (ptr - region.object) / (size as int);
        lemma_slot_address(key, ptr, size, ps);
        if other != 0 && (other - key) % (size as int) == 0 {
            lemma_slot_address(key, other, size, ps);
        }
        let oslot = (other - key) / (size as int);
        if v.empties_chunk(ptr) {
            assert(after.find(other) is None || after.find(other).unwrap().kind
                == RegionType::Cache);
            if v.allocated(other) {
                assert(all_slots(size, ps).contains(oslot));
                assert(region.free.insert(slot).contains(oslot));
            }
        } else {
            assert(after.regions[key].free == region.free.insert(slot));
            assert(after.find(other) is Some);
        }
    }
}

/// A slot that has been taken is allocated, and nothing else is that was
/// not before.
pub proof fn lemma_slot_allocated(
    made: DirView,
    class: usize,
    chunk_head: bool,
    draw: usize,
    other: usize,
)
    requires
        valid_page_size(made.page_size),
        is_class_size(class, made.page_size),
        made.chunks[spec_chunk_index(class) as int].len() > 0,
        ({
            let chunk = made.chosen_chunk(class, chunk_head);
            let region = made.regions[chunk];
            &&& made.regions.contains_key(chunk)
            &&& region.kind == RegionType::Chunk
            &&& region.object == chunk
            &&& region.size == class
            &&& page_rem(chunk as int, made.page_size) == 0
            &&& chunk >= made.page_size
            &&& chunk + 2 * made.page_size <= usize::MAX
            &&& region.free.subset_of(all_slots(class, made.page_size))
            &&& exists|slot: int| region.free.contains(slot)
        }),
    ensures
        made.slot_taken(class, chunk_head, draw).allocated(other) <==> made.allocated(other)
            || other == made.slot_ptr(class, chunk_head, draw),
{
    let ps = made.page_size;
    let served = made.slot_taken(class, chunk_head, draw);
    let chunk = made.chosen_chunk(class, chunk_head);
    let n = spec_max_slot_index(class, ps);
    lemma_class_size(class, ps);
    let start = draw as int % n;
    let region = made.regions[chunk];
    let slot = made.chosen_slot(class, chunk_head, draw);
    let okey = page_base(other, ps);
    lemma_page_base(other, ps);
    let witness = choose|k: int| region.free.contains(k);
    assert(all_slots(class, ps).contains(witness));
    lemma_nearest_exists(region.free, n, start, witness);
    lemma_offset_of_slot(slot, class, ps);
    lemma_page_base(chunk, ps);
    lemma_in_page(chunk, slot * class, ps);
    let ptr = made.slot_ptr(class, chunk_head, draw);
    assert(ptr == chunk + slot * class);
    assert(page_base(ptr, ps) == chunk);
    if okey != chunk {
        assert(served.regions.contains_key(okey) == made.regions.contains_key(okey));
        if made.regions.contains_key(okey) {
            assert(served.regions[okey] == made.regions[okey]);
        }
        assert(served.find(other) == made.find(other));
    } else {
        assert(served.regions[chunk].free == region.free.remove(slot));
        assert(served.find(other) is Some);
        assert(made.find(other) == Some(region));
        if other != 0 && (other - chunk) % (class as int) == 0 {
            lemma_slot_address(chunk, other, class, ps);
            let oslot = (other - chunk) / (class as int);
            if oslot == slot {
                assert(other == ptr);
            }
        }
        if other == ptr {
            assert((ptr - chunk) % (class as int) == 0);
            assert((ptr - chunk) / (class as int) == slot);
            assert(ptr != 0);
        }
    }
}

/// An allocation that has been served is allocated, and nothing else is
/// that was not before. An empty request is served without an allocation.
pub proof fn lemma_alloc_allocated(
    v: DirView,
    size: usize,
    zero_fill: bool,
    force_large: bool,
    mapped: Option<usize>,
    draws: Draws,
    other: usize,
)
    requires
        v.sound(),
        v.alloc_fault(size, zero_fill, force_large, mapped) is None,
        !(mapped is None && v.map_request(size, zero_fill, force_large) is Some),
    ensures
        ({
            let page = if mapped is Some { mapped.unwrap() } else { 0 };
            let served = v.alloc_state(size, force_large, page, draws);
            let ptr = v.alloc_ptr(size, force_large, page, draws);
            served.allocated(other) <==> v.allocated(other) || (other == ptr && (size != 0
                || force_large))
        }),
{
    let ps = v.page_size;
    let page = if mapped is Some { mapped.unwrap() } else { 0 };
    lemma_sound_sizes(v);
    if is_large(size, force_large, ps) {
        lemma_large_allocated(v, page, size, other);
    } else {
        lemma_small_allocated(v, size, page, draws, other);
    }
}

/// A large object that has been entered is allocated, and nothing else is
/// that was not before.
pub proof fn lemma_large_allocated(v: DirView, page: usize, size: usize, other: usize)
    requires
        valid_page_size(v.page_size),
        page != 0,
        !v.regions.contains_key(page_base(page, v.page_size)),
    ensures
        v.with_region(
            RegionView { object: page, size, kind: RegionType::Large, free: Set::empty() },
        ).allocated(other) <==> v.allocated(other) || other == page,
{
    let ps = v.page_size;
    let served = v.with_region(
        RegionView { object: page, size, kind: RegionType::Large, free: Set::empty() },
    );
    let okey = page_base(other, ps);
    let key = page_base(page, ps);
    if okey != key {
        assert(served.regions.contains_key(okey) == v.regions.contains_key(okey));
        if v.regions.contains_key(okey) {
            assert(served.regions[okey] == v.regions[okey]);
        }
        assert(served.find(other) == v.find(other));
    } else {
        assert(v.find(other) is None);
    }
}

/// A slot that has been served is allocated, and nothing else is that was
/// not before. An empty request is served without an allocation.
pub proof fn lemma_small_allocated(v: DirView, size: usize, page: usize, draws: Draws, other: usize)
    requires
        v.sound(),
        size <= v.page_size / 2,
        v.chunks[v.class_index(size)].len() == 0 && v.cache.len() == 0 ==> v.accepts(
            chunk_request(v.page_size),
            page,
        ),
    ensures
        v.alloc_state(size, false, page, draws).allocated(other) <==> v.allocated(other) || (other
            == v.alloc_ptr(size, false, page, draws) && size != 0),
{
    let ps = v.page_size;
    let class = spec_chunk_size(size, ps);
    let i = spec_chunk_index(class) as int;
    let made = v.with_chunk(class, page, draws.cache_head);
    lemma_sound_sizes(v);
    if class != 0 {
        lemma_class_is_chunk_class(class, ps);
    }
    lemma_made_chunk(v, class, page, draws.cache_head, other);
    let list = made.chunks[i];
    assert(list[0] == list.first());
    assert(list[list.len() - 1] == list.last());
    if class != 0 {
        lemma_slot_allocated(made, class, draws.chunk_head, draws.slot, other);
    } else {
        let ptr = made.chosen_chunk(class, draws.chunk_head);
        if other == ptr {
            lemma_page_base(ptr, ps);
            assert(made.find(ptr) == Some(made.regions[ptr]));
            assert(!made.allocated(ptr));
        }
    }
}

/// A multiple of a number is a multiple of its divisors.
pub proof fn lemma_multiple(x: int, unit: int, a: int, t: int)
    requires
        a > 0,
        t > 0,
        unit == a * t,
        x % unit == 0,
    ensures
        x % a == 0,
{
    assert(unit > 0) by (nonlinear_arith)
        requires
            a > 0,
            t > 0,
            unit == a * t,
    ;
    let y = x / unit;
    vstd::arithmetic::div_mod::lemma_fundamental_div_mod(x, unit);
    assert(x == unit * y);
    assert(unit * y == (t * y) * a) by (nonlinear_arith)
        requires
            unit == a * t,
    ;
    vstd::arithmetic::div_mod::lemma_mod_multiples_basic(t * y, a);
}

/// A sum of multiples is a multiple.
pub proof fn lemma_sum_of_multiples(x: int, y: int, unit: int)
    requires
        unit > 0,
        x % unit == 0,
    ensures
        (x + y * unit) % unit == 0,
{
    vstd::arithmetic::div_mod::lemma_mod_multiples_vanish(y, x, unit);
    assert(unit * y + x == x + y * unit) by (nonlinear_arith);
}

/// Where a small request is served: at a multiple of the slot size of
/// its class, the slot inside one page of the address space; an empty
/// request at the start of a page. Never at the null address.
#[verifier::rlimit(60)]
pub proof fn lemma_small_place(v: DirView, size: usize, page: usize, draws: Draws)
    requires
        v.sound(),
        size <= v.page_size / 2,
        v.chunks[v.class_index(size)].len() == 0 && v.cache.len() == 0 ==> v.accepts(
            chunk_request(v.page_size),
            page,
        ),
    ensures
        ({
            let ptr = v.alloc_ptr(size, false, page, draws);
            let class = spec_chunk_size(size, v.page_size);
            &&& ptr != 0
            &&& ptr + class <= usize::MAX
            &&& page_rem(ptr as int, v.page_size) + class <= v.page_size
            &&& if size == 0 {
                page_rem(ptr as int, v.page_size) == 0
            } else {
                is_class_size(class, v.page_size) && class >= size && (ptr as int) % (class as int)
                    == 0
            }
        }),
{
    let ps = v.page_size;
    let class = spec_chunk_size(size, ps);
    let i = spec_chunk_index(class) as int;
    let made = v.with_chunk(class, page, draws.cache_head);
    lemma_sound_sizes(v);
    if class != 0 {
        lemma_class_is_chunk_class(class, ps);
    }
    lemma_made_chunk(v, class, page, draws.cache_head, 0);
    let list = made.chunks[i];
    assert(list[0] == list.first());
    assert(list[list.len() - 1] == list.last());
    let chunk = made.chosen_chunk(class, draws.chunk_head);
    if class != 0 {
        let n = spec_max_slot_index(class, ps);
        lemma_class_size(class, ps);
        let start = draws.slot as int % n;
        let region = made.regions[chunk];
        let slot = made.chosen_slot(class, draws.chunk_head, draws.slot);
        let witness = choose|k: int| region.free.contains(k);
        assert(all_slots(class, ps).contains(witness));
        lemma_nearest_exists(region.free, n, start, witness);
        lemma_offset_of_slot(slot, class, ps);
        crate::mmap::lemma_page_rem(chunk as int, ps);
        lemma_multiple(chunk as int, ps as int, class as int, n);
        lemma_sum_of_multiples(chunk as int, slot, class as int);
        lemma_in_page(chunk, slot * class, ps);
        lemma_page_base((chunk + slot * class) as usize, ps);
    } else {
        lemma_page_base(chunk, ps);
    }
}

/// There is a nearest free slot where there is a free slot.
pub proof fn lemma_nearest_exists(free: Set<int>, n: int, start: int, witness: int)
    requires
        0 <= start < n,
        0 <= witness < n,
        free.contains(witness),
    ensures
        0 <= nearest_free(free, n, start) < n,
        free.contains(nearest_free(free, n, start)),
    decreases steps_back(start, witness, n),
{
    if exists|j: int|
        0 <= j < n && free.contains(j) && steps_back(start, j, n) < steps_back(start, witness, n) {
        let j = choose|j: int|
            0 <= j < n && free.contains(j) && steps_back(start, j, n) < steps_back(
                start,
                witness,
                n,
            );
        lemma_nearest_exists(free, n, start, j);
    } else {
        assert(0 <= witness < n && free.contains(witness) && forall|j: int|
            0 <= j < n && free.contains(j) ==> steps_back(start, witness, n) <= steps_back(
                start,
                j,
                n,
            ));
    }
}

/// Giving a class a chunk allocates nothing, and leaves the state sound
/// enough to take a slot from the chunk at either end of the list.
pub proof fn lemma_made_chunk(v: DirView, class: usize, page: usize, cache_head: bool, other: usize)
    requires
        v.sound(),
        class == 0 || is_class_size(class, v.page_size),
        v.chunks[spec_chunk_index(class) as int].len() == 0 && v.cache.len() == 0 ==> v.accepts(
            chunk_request(v.page_size),
            page,
        ),
    ensures
        ({
            let made = v.with_chunk(class, page, cache_head);
            let list = made.chunks[spec_chunk_index(class) as int];
            &&& made.page_size == v.page_size
            &&& made.allocated(other) <==> v.allocated(other)
            &&& list.len() > 0
            &&& forall|k: int|
                #![trigger list[k]]
                0 <= k < list.len() ==> {
                    let region = made.regions[list[k]];
                    &&& made.regions.contains_key(list[k])
                    &&& region.kind == RegionType::Chunk
                    &&& region.object == list[k]
                    &&& region.size == class
                    &&& page_rem(list[k] as int, v.page_size) == 0
                    &&& list[k] >= v.page_size
                    &&& list[k] + 2 * v.page_size <= usize::MAX
                    &&& class != 0 ==> region.free.subset_of(all_slots(class, v.page_size))
                        && exists|slot: int| region.free.contains(slot)
                }
        }),
{
    reveal(DirView::sound);
    let ps = v.page_size;
    let i = spec_chunk_index(class) as int;
    let made = v.with_chunk(class, page, cache_head);
    let list = made.chunks[i];
    let okey = page_base(other, ps);
    lemma_page_base(other, ps);
    if class != 0 {
        lemma_class_is_chunk_class(class, ps);
        lemma_class_size(class, ps);
    }
    if v.chunks[i].len() > 0 {
        assert forall|k: int| #![trigger list[k]] 0 <= k < list.len() implies {
            let region = made.regions[list[k]];
            &&& made.regions.contains_key(list[k])
            &&& region.kind == RegionType::Chunk
            &&& region.object == list[k]
            &&& region.size == class
            &&& page_rem(list[k] as int, ps) == 0
            &&& list[k] >= ps
            &&& list[k] + 2 * ps <= usize::MAX
            &&& class != 0 ==> region.free.subset_of(all_slots(class, ps)) && exists|slot: int|
                region.free.contains(slot)
        } by {
            let c = list[k];
            assert(list.contains(c));
            lemma_listed_chunk(v, i, c);
            let region = v.regions[c];
            lemma_page_base(c, ps);
            if region.size != 0 {
                lemma_class_is_chunk_class(region.size, ps);
                assert(region.free != Set::<int>::empty());
                assert(exists|slot: int| region.free.contains(slot)) by {
                    if forall|slot: int| !region.free.contains(slot) {
                        assert(region.free =~= Set::<int>::empty());
                    }
                }
            }
        }
    } else {
        let object = if v.cache.len() > 0 { end_of(v.cache, cache_head) } else { page };
        if v.cache.len() > 0 {
            assert(v.cache[0] == v.cache.first());
            assert(v.cache[v.cache.len() - 1] == v.cache.last());
            assert(v.regions.contains_key(object));
            assert(v.region_sound(object));
        } else {
            lemma_page_base(page, ps);
            lemma_page_ceil(ps, ps);
        }
        lemma_page_base(object, ps);
        assert(list =~= seq![object]);
        assert(made.regions.contains_key(object));
        assert(made.regions[object] == fresh_chunk(object, class, ps));
        assert(page_rem(object as int, ps) == 0);
        assert(object + 2 * ps <= usize::MAX);
        if class != 0 {
            assert(all_slots(class, ps).contains(0));
        }
        assert forall|k: int| #![trigger list[k]] 0 <= k < list.len() implies {
            let region = made.regions[list[k]];
            &&& made.regions.contains_key(list[k])
            &&& region.kind == RegionType::Chunk
            &&& region.object == list[k]
            &&& region.size == class
            &&& page_rem(list[k] as int, ps) == 0
            &&& list[k] >= ps
            &&& list[k] + 2 * ps <= usize::MAX
            &&& class != 0 ==> region.free.subset_of(all_slots(class, ps)) && exists|slot: int|
                region.free.contains(slot)
        } by {
            assert(list[k] == object);
            if class != 0 {
                assert(made.regions[object].free.contains(0));
            }
        }
        if okey != object {
            assert(made.regions.contains_key(okey) == v.regions.contains_key(okey));
            if v.regions.contains_key(okey) {
                assert(made.regions[okey] == v.regions[okey]);
            }
            assert(made.find(other) == v.find(other));
        } else {
            if class != 0 && other != 0 && (other - object) % (class as int) == 0 {
                lemma_slot_address(object, other, class, ps);
                assert(all_slots(class, ps).contains((other - object) / (class as int)));
            }
        }
    }
}

/// What soundness says of the sizes.
pub proof fn lemma_sound_sizes(v: DirView)
    requires
        v.sound(),
    ensures
        valid_page_size(v.page_size),
        v.chunks.len() == MAX_CHUNK_SHIFT,
        v.chunks[0].len() <= 1,
        v.cache.len() <= MAX_CACHE_SIZE,
        v.used <= v.total,
        v.regions.dom().finite(),
        v.used == v.regions.dom().len(),
{
    reveal(DirView::sound);
}

/// Where an allocated slot lies: at a whole number of slots from the start
/// of the page of its chunk, with all its bytes inside that page.
pub proof fn lemma_slot_within(v: DirView, ptr: usize)
    requires
        v.sound(),
        v.allocated(ptr),
        v.frees_slot(ptr),
    ensures
        ({
            let page = v.page_of(ptr);
            let size = v.find(ptr).unwrap().size;
            let slot = (ptr - page) / (size as int);
            &&& page as int % (v.page_size as int) == 0
            &&& is_class_size(size, v.page_size)
            &&& 0 <= slot < spec_max_slot_index(size, v.page_size)
            &&& ptr == page + slot * size
            &&& page <= ptr
            &&& ptr + size <= page + v.page_size
        }),
{
    reveal(DirView::sound);
    let ps = v.page_size;
    let key = page_base(ptr, ps);
    assert(v.regions.contains_key(key));
    assert(v.region_sound(key));
    let size = v.regions[key].size;
    lemma_page_base(ptr, ps);
    crate::mmap::lemma_page_rem(key as int, ps);
    lemma_slot_address(key, ptr, size, ps);
    lemma_offset_of_slot((ptr - key) / (size as int), size, ps);
}

/// Allocations do not run into each other. Two slots never share a byte,
/// whether they lie in one chunk or in two; and an allocation with a
/// mapping of its own starts in a page in which no other allocation
/// starts.
pub proof fn lemma_allocations_apart(v: DirView, a: usize, b: usize)
    requires
        v.sound(),
        v.allocated(a),
        v.allocated(b),
        a != b,
    ensures
        v.frees_slot(a) && v.frees_slot(b) ==> a + v.find(a).unwrap().size <= b || b + v.find(
            b,
        ).unwrap().size <= a,
        v.frees_large(a) || v.frees_large(b) ==> v.page_of(a) != v.page_of(b),
{
    let ps = v.page_size;
    lemma_sound_sizes(v);
    if v.frees_slot(a) && v.frees_slot(b) {
        lemma_slot_within(v, a);
        lemma_slot_within(v, b);
        let ka = v.page_of(a);
        let kb = v.page_of(b);
        if ka == kb {
            let size = v.find(a).unwrap().size as int;
            let i = (a - ka) / size;
            let j = (b - kb) / size;
            assert(i != j);
            assert(i * size + size <= j * size || j * size + size <= i * size) by (nonlinear_arith)
                requires
                    i != j,
                    size > 0,
            ;
        } else {
            lemma_pages_apart(ka as int, kb as int, ps as int);
        }
    }
}

/// Two multiples of a unit that differ are at least a unit apart.
pub proof fn lemma_pages_apart(a: int, b: int, unit: int)
    requires
        unit > 0,
        a % unit == 0,
        b % unit == 0,
        a != b,
    ensures
        a + unit <= b || b + unit <= a,
{
    vstd::arithmetic::div_mod::lemma_fundamental_div_mod(a, unit);
    vstd::arithmetic::div_mod::lemma_fundamental_div_mod(b, unit);
    let i = a / unit;
    let j = b / unit;
    assert(i != j);
    assert(unit * i + unit <= unit * j || unit * j + unit <= unit * i) by (nonlinear_arith)
        requires
            i != j,
            unit > 0,
    ;
}

/// Whether `effect` leaves the `size` bytes at `ptr` alone: what it
/// protects, overwrites or releases, or copies to, lies before or behind
/// them.
pub open spec fn spares(effect: Effect, ptr: usize, size: usize) -> bool {
    match effect {
        Effect::Protect { ptr: at, size: len, .. } => at + len <= ptr || ptr + size <= at,
        Effect::Fill { ptr: at, size: len, .. } => at + len <= ptr || ptr + size <= at,
        Effect::Copy { dst, size: len, .. } => dst + len <= ptr || ptr + size <= dst,
        Effect::Unmap { ptr: at, size: len, .. } => at + len <= ptr || ptr + size <= at,
    }
}

/// Freeing a slot touches no byte of another live slot: the slot given
/// back is overwritten, and a page is only sealed or released when no slot
/// of it is live.
pub proof fn lemma_free_spares(v: DirView, ptr: usize, other: usize, k: int)
    requires
        v.sound(),
        v.allocated(ptr),
        v.frees_slot(ptr),
        v.allocated(other),
        v.frees_slot(other),
        other != ptr,
        0 <= k < v.dealloc_effects(ptr).len(),
    ensures
        spares(v.dealloc_effects(ptr)[k], other, v.find(other).unwrap().size),
{
    let ps = v.page_size;
    let region = v.find(ptr).unwrap();
    let size = v.find(other).unwrap().size;
    lemma_sound_sizes(v);
    lemma_slot_within(v, ptr);
    lemma_slot_within(v, other);
    lemma_allocations_apart(v, ptr, other);
    if v.empties_chunk(ptr) {
        let page = v.page_of(ptr);
        reveal(DirView::sound);
        assert(v.regions.contains_key(page));
        assert(v.region_sound(page));
        assert(region.object == page);
        if v.page_of(other) == page {
            let mine = (ptr - page) / (region.size as int);
            let theirs = (other - page) / (region.size as int);
            assert(all_slots(region.size, ps).contains(theirs));
            assert(region.free.insert(mine).contains(theirs));
            assert(mine != theirs);
            assert(false);
        }
        lemma_pages_apart(page as int, v.page_of(other) as int, ps as int);
    }
}

/// Where a slot is taken from: a free slot of the chunk chosen for its
/// class, which starts its page.
pub proof fn lemma_slot_place(v: DirView, size: usize, page: usize, draws: Draws)
    requires
        v.sound(),
        0 < size <= v.page_size / 2,
        v.chunks[v.class_index(size)].len() == 0 && v.cache.len() == 0 ==> v.accepts(
            chunk_request(v.page_size),
            page,
        ),
    ensures
        ({
            let class = spec_chunk_size(size, v.page_size);
            let made = v.with_chunk(class, page, draws.cache_head);
            let chunk = made.chosen_chunk(class, draws.chunk_head);
            let slot = made.chosen_slot(class, draws.chunk_head, draws.slot);
            let ptr = v.alloc_ptr(size, false, page, draws);
            &&& is_class_size(class, v.page_size)
            &&& made.regions.contains_key(chunk)
            &&& made.regions[chunk].kind == RegionType::Chunk
            &&& made.regions[chunk].object == chunk
            &&& made.regions[chunk].size == class
            &&& made.regions[chunk].free.contains(slot)
            &&& page_rem(chunk as int, v.page_size) == 0
            &&& 0 <= slot < spec_max_slot_index(class, v.page_size)
            &&& ptr == chunk + slot * class
            &&& page_base(ptr, v.page_size) == chunk
            &&& ptr + class <= chunk + v.page_size
            &&& (ptr - chunk) / (class as int) == slot
        }),
{
    let ps = v.page_size;
    let class = spec_chunk_size(size, ps);
    let i = spec_chunk_index(class) as int;
    let made = v.with_chunk(class, page, draws.cache_head);
    lemma_sound_sizes(v);
    lemma_class_is_chunk_class(class, ps);
    lemma_made_chunk(v, class, page, draws.cache_head, 0);
    let list = made.chunks[i];
    assert(list[0] == list.first());
    assert(list[list.len() - 1] == list.last());
    let chunk = made.chosen_chunk(class, draws.chunk_head);
    let n = spec_max_slot_index(class, ps);
    lemma_class_size(class, ps);
    let start = draws.slot as int % n;
    let region = made.regions[chunk];
    let slot = made.chosen_slot(class, draws.chunk_head, draws.slot);
    let witness = choose|k: int| region.free.contains(k);
    assert(all_slots(class, ps).contains(witness));
    lemma_nearest_exists(region.free, n, start, witness);
    lemma_offset_of_slot(slot, class, ps);
    lemma_in_page(chunk, slot * class, ps);
}

/// Serving a small request touches no byte of a live slot: the slot handed
/// out was free, and a page that is made a chunk held none.
pub proof fn lemma_alloc_spares(
    v: DirView,
    size: usize,
    zero_fill: bool,
    mapped: Option<usize>,
    draws: Draws,
    other: usize,
    k: int,
)
    requires
        v.sound(),
        size <= v.page_size / 2,
        v.alloc_fault(size, zero_fill, false, mapped) is None,
        !(mapped is None && v.map_request(size, zero_fill, false) is Some),
        v.allocated(other),
        v.frees_slot(other),
        0 <= k < v.alloc_effects(
            size,
            zero_fill,
            false,
            if mapped is Some { mapped.unwrap() } else { 0 },
            draws,
        ).len(),
    ensures
        ({
            let page = if mapped is Some { mapped.unwrap() } else { 0 };
            let ptr = v.alloc_ptr(size, false, page, draws);
            &&& ptr != other
            &&& spares(
                v.alloc_effects(size, zero_fill, false, page, draws)[k],
                other,
                v.find(other).unwrap().size,
            )
        }),
{
    let ps = v.page_size;
    let page = if mapped is Some { mapped.unwrap() } else { 0 };
    let class = spec_chunk_size(size, ps);
    let i = spec_chunk_index(class) as int;
    let made = v.with_chunk(class, page, draws.cache_head);
    let theirs = v.page_of(other);
    lemma_sound_sizes(v);
    lemma_slot_within(v, other);
    lemma_fresh_page(v, class, page, draws.cache_head, other);
    if size != 0 {
        lemma_slot_place(v, size, page, draws);
        let chunk = made.chosen_chunk(class, draws.chunk_head);
        let slot = made.chosen_slot(class, draws.chunk_head, draws.slot);
        if chunk == theirs {
            let taken = (other - theirs) / (class as int);
            assert(made.regions[chunk] == v.regions[chunk]);
            assert(taken != slot);
            let c = class as int;
            assert(slot * c + c <= taken * c || taken * c + c <= slot * c) by (nonlinear_arith)
                requires
                    taken != slot,
                    c > 0,
            ;
        } else {
            lemma_pages_apart(chunk as int, theirs as int, ps as int);
        }
    } else {
        lemma_small_place(v, size, page, draws);
        lemma_page_base(v.alloc_ptr(size, false, page, draws), ps);
    }
}

/// A page that is made a chunk is not the page of a live slot, and a page
/// that holds a live slot stays as it is.
pub proof fn lemma_fresh_page(v: DirView, class: usize, page: usize, cache_head: bool, other: usize)
    requires
        v.sound(),
        class == 0 || is_class_size(class, v.page_size),
        v.chunks[spec_chunk_index(class) as int].len() == 0 && v.cache.len() == 0 ==> v.accepts(
            chunk_request(v.page_size),
            page,
        ),
        v.allocated(other),
        v.frees_slot(other),
    ensures
        ({
            let made = v.with_chunk(class, page, cache_head);
            let theirs = v.page_of(other);
            let size = v.find(other).unwrap().size;
            &&& made.regions.contains_key(theirs)
            &&& made.regions[theirs] == v.regions[theirs]
            &&& forall|k: int|
                0 <= k < v.chunk_effects(class, page, cache_head).len() ==> spares(
                    #[trigger] v.chunk_effects(class, page, cache_head)[k],
                    other,
                    size,
                )
        }),
{
    reveal(DirView::sound);
    let ps = v.page_size;
    let i = spec_chunk_index(class) as int;
    let theirs = v.page_of(other);
    lemma_slot_within(v, other);
    if v.chunks[i].len() == 0 {
        let object = if v.cache.len() > 0 {
            end_of(v.cache, cache_head)
        } else {
            page
        };
        if v.cache.len() > 0 {
            assert(v.cache[0] == v.cache.first());
            assert(v.cache[v.cache.len() - 1] == v.cache.last());
            assert(v.regions.contains_key(object));
            assert(v.region_sound(object));
            crate::mmap::lemma_page_rem(object as int, ps);
            lemma_page_base(object, ps);
        } else {
            lemma_page_base(page, ps);
            crate::mmap::lemma_page_rem(page as int, ps);
        }
        assert(object != theirs);
        assert(object as int % (ps as int) == 0);
        lemma_pages_apart(object as int, theirs as int, ps as int);
    }
}

/// The region table can always double. Every record sits under a page of
/// its own, so there are no more records than the address space has pages,
/// and a table that could not double would hold more than that.
pub proof fn lemma_table_room(v: DirView)
    requires
        v.sound(),
    ensures
        v.used <= usize::MAX / 4096 + 1,
        !v.table_full(),
{
    reveal(DirView::sound);
    let keys = v.regions.dom();
    let number = |key: usize| key as int / 4096;
    let pages = keys.map(number);
    let limit = usize::MAX as int / 4096 + 1;
    assert forall|key: usize| keys.contains(key) implies key as int % 4096 == 0 by {
        assert(v.regions.contains_key(key));
        assert(v.region_sound(key));
        lemma_page_base(v.regions[key].object, v.page_size);
        crate::mmap::lemma_page_rem(key as int, v.page_size);
        lemma_multiple(key as int, v.page_size as int, 4096, v.page_size as int / 4096);
    }
    assert(vstd::relations::injective_on(number, keys)) by {
        assert forall|a: usize, b: usize|
            keys.contains(a) && keys.contains(b) && #[trigger] number(a) == #[trigger] number(
                b,
            ) implies a == b by {
            assert(a as int % 4096 == 0);
            assert(b as int % 4096 == 0);
        }
    }
    vstd::set_lib::lemma_map_size(keys, pages, number);
    vstd::set_lib::lemma_int_range(0, limit);
    assert(pages.subset_of(vstd::set_lib::set_int_range(0, limit))) by {
        assert forall|page: int| pages.contains(page) implies 0 <= page < limit by {
            let key = choose|key: usize| keys.contains(key) && number(key) == page;
            assert(page == key as int / 4096);
        }
    }
    vstd::set_lib::lemma_len_subset(pages, vstd::set_lib::set_int_range(0, limit));
    assert(v.used <= limit);
}

/// What soundness says of a member of a chunk list.
pub proof fn lemma_listed_chunk(v: DirView, i: int, chunk: usize)
    requires
        v.sound(),
        0 <= i < MAX_CHUNK_SHIFT,
        v.chunks[i].contains(chunk),
    ensures
        v.regions.contains_key(chunk),
        v.regions[chunk].kind == RegionType::Chunk,
        v.regions[chunk].object == chunk,
        spec_chunk_index(v.regions[chunk].size) == i,
        v.region_sound(chunk),
{
    reveal(DirView::sound);
    let k = v.chunks[i].index_of(chunk);
    assert(v.chunks[i][k] == chunk);
    assert(v.chunks_sound());
    assert(v.regions.contains_key(chunk));
}

/// Number of records of kind `kind` among `slots`.
pub open spec fn count_kind(slots: Seq<Region>, kind: RegionType) -> nat
    decreases slots.len(),
{
    if slots.len() == 0 {
        0
    } else {
        count_kind(slots.drop_last(), kind) + if slots.last().kind == kind {
            1nat
        } else {
            0nat
        }
    }
}

/// How many slots of the region table hold what.
#[derive(Clone, Copy, Debug, PartialEq, Eq)]
pub struct Census {
    /// Unused slots.
    pub free: usize,
    /// Chunks, the page behind empty allocations among them.
    pub chunks: usize,
    /// Large objects.
    pub larges: usize,
    /// Cached pages.
    pub cached: usize,
}

} // verus!
