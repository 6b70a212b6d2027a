//! The directory: the bookkeeping of one thread's protected heap.
//!
//! The directory owns the region table, the per-class lists of chunks with
//! free slots and the cache of emptied chunk pages. It turns requests for
//! memory into slots of chunk pages and into mappings of their own, and it
//! never touches a page itself: where a page has to be mapped it says so and
//! waits for the address, and everything else that has to happen to memory
//! comes back as a list of effects for the driver to carry out.
use vstd::prelude::*;
use vstd::pervasive::unreached;
use crate::fault::Fault;
use crate::list::{lemma_list_member, list_insert, list_inv, list_remove, same_but_links};
use crate::mmap::{
    Prot, RangePos, lemma_page_base, lemma_page_ceil, mask_pointer, page_base, page_round,
    valid_page_size,
};
use crate::records::{
    data_inv, lemma_added, lemma_changed, lemma_dropped, lemma_elsewhere, lemma_free_set,
    lemma_freed_view, lemma_links_views, lemma_nearest, lemma_pop_members, lemma_push_members,
    lemma_recached, lemma_relisted, listed_inv, lists_inv, record_inv, views,
};
use crate::region::{
    Effect, MAX_CHUNK_MAPPING, MAX_CHUNK_SHIFT, Region, RegionType, chunk_index, chunk_size,
    fill_byte_alloc, is_class_size, lemma_class_is_chunk_class, lemma_class_size,
    lemma_offset_of_slot, lemma_slot_of_offset, max_chunk_size, max_slot_index, spec_chunk_index,
    spec_fill_byte_alloc, spec_fill_byte_dealloc,
};
use crate::state::{
    AllocStep, Census, DirView, Draws, MAX_CACHE_SIZE, MapRequest, RegionView, USE_CACHE,
    all_slots, chunk_request, count_kind, empty_view, end_of, fresh_chunk, is_large,
    lemma_alloc_keeps, lemma_noted, mappable, region_view, teardown, without,
};
use crate::stats::{no_stats, Stats, USE_STATS};
use crate::table::{Table, count_free, lemma_count_free_take, occupied};
use crate::utils;

verus! {

/// A directory.
pub struct Dir {
    /// The address the directory is registered at.
    base: usize,
    /// A word from the operating system, drawn when the directory is made.
    canary1: usize,
    /// `canary1` combined with `base`.
    canary2: usize,
    table: Table,
    /// First cached page, null if there is none.
    cache1: usize,
    /// Last cached page.
    cache2: usize,
    cache_len: usize,
    /// Per class the first chunk with a free slot, null if there is none.
    chunks1: [usize; 16],
    /// Per class the last chunk with a free slot.
    chunks2: [usize; 16],
    /// The chunk lists in full.
    lists: Ghost<Seq<Seq<usize>>>,
    /// The cache list in full.
    cached: Ghost<Seq<usize>>,
    /// The statistics, if they are kept.
    stats: Option<Stats>,
}

impl Dir {
    /// The region table.
    pub closed spec fn spec_table(&self) -> Table {
        self.table
    }

    /// The chunk lists, first member to last, by class.
    pub closed spec fn spec_lists(&self) -> Seq<Seq<usize>> {
        self.lists@
    }

    /// The cache list, first member to last.
    pub closed spec fn spec_cached(&self) -> Seq<usize> {
        self.cached@
    }

    /// The address the directory is registered at.
    pub closed spec fn spec_base(&self) -> usize {
        self.base
    }

    /// The word drawn when the directory was made.
    pub closed spec fn spec_canary1(&self) -> usize {
        self.canary1
    }

    /// The word combined with the address the directory is registered at.
    pub closed spec fn spec_canary2(&self) -> usize {
        self.canary2
    }

    /// The page size the directory works with.
    pub open spec fn spec_page_size(&self) -> usize {
        self.spec_table().spec_page_size()
    }

    /// The records, by the page their object starts in.
    pub open spec fn records(&self) -> Map<usize, Region> {
        self.spec_table()@
    }

    /// Everything that holds of a directory between operations, but for
    /// the record under `except`, which may be listed wrongly.
    #[verifier::opaque]
    pub closed spec fn inv(&self, except: usize) -> bool {
        let m = self.records();
        let ps = self.spec_page_size();
        &&& self.table.wf()
        &&& self.canary2 == self.canary1 ^ self.base
        &&& self.cache_len == self.cached@.len()
        &&& self.cache_len <= MAX_CACHE_SIZE
        &&& data_inv(m, self.lists@, self.cached@, self.canary2, ps, except)
        &&& lists_inv(
            m,
            self.lists@,
            self.cached@,
            self.chunks1@,
            self.chunks2@,
            self.cache1,
            self.cache2,
        )
    }

    /// The directory is in order.
    pub open spec fn wf(&self) -> bool {
        self.inv(0)
    }
}

impl View for Dir {
    type V = DirView;

    closed spec fn view(&self) -> DirView {
        DirView {
            page_size: self.spec_page_size(),
            total: self.table.spec_total(),
            used: self.table.spec_used(),
            regions: views(self.records(), self.spec_page_size()),
            chunks: self.lists@,
            cache: self.cached@,
            stats: match self.stats {
                Some(stats) => Some(stats@),
                None => None,
            },
        }
    }
}

impl Dir {
    /// A directory registered at `base` whose canary is `canary1`, with
    /// nothing allocated.
    pub fn with_canary(page_size: usize, base: usize, canary1: usize) -> (dir: Dir)
        requires
            valid_page_size(page_size),
        ensures
            dir.wf(),
            dir@ == empty_view(page_size),
            dir.spec_base() == base,
            dir.spec_canary1() == canary1,
    {
        proof {
            reveal(Dir::inv);
        }
        let dir = Dir {
            base,
            canary1,
            canary2: canary1 ^ base,
            table: Table::new(page_size),
            cache1: 0,
            cache2: 0,
            cache_len: 0,
            chunks1: [0usize; 16],
            chunks2: [0usize; 16],
            lists: Ghost(Seq::new(MAX_CHUNK_SHIFT as nat, |i: int| Seq::<usize>::empty())),
            cached: Ghost(Seq::empty()),
            stats: None,
        };
        proof {
            assert(dir@.regions =~= Map::<usize, RegionView>::empty());
            assert(dir@.chunks =~= Seq::new(MAX_CHUNK_SHIFT as nat, |i: int| Seq::<usize>::empty()));
        }
        dir
    }

    /// A directory registered at `base`, with nothing allocated and a
    /// canary drawn from the operating system; `None` if that has no
    /// randomness to give.
    pub fn init(page_size: usize, base: usize) -> (dir: Option<Dir>)
        requires
            valid_page_size(page_size),
        ensures
            dir matches Some(d) ==> d.wf() && d.spec_base() == base && d@ == empty_view(
                page_size,
            ).noted(if USE_STATS { Some(no_stats()) } else { None }),
    {
        match utils::os_random_word() {
            Some(canary1) => {
                let mut dir = Dir::with_canary(page_size, base, canary1);
                dir.set_stats(USE_STATS);
                Some(dir)
            },
            None => None,
        }
    }

    /// Starts the statistics anew if `on` is set, and drops them if not.
    pub fn set_stats(&mut self, on: bool)
        requires
            old(self).wf(),
        ensures
            final(self).wf(),
            final(self)@ == old(self)@.noted(if on { Some(no_stats()) } else { None }),
            final(self).spec_base() == old(self).spec_base(),
            final(self).spec_canary1() == old(self).spec_canary1(),
    {
        proof {
            reveal(Dir::inv);
        }
        self.stats = if on { Some(Stats::new()) } else { None };
    }

    /// The statistics, if they are kept.
    pub fn stats(&self) -> (stats: Option<Stats>)
        ensures
            stats is Some == self@.stats is Some,
            stats matches Some(kept) ==> self@.stats == Some(kept@),
    {
        self.stats
    }

    /// Keeps `stats` for statistics.
    fn note(&mut self, stats: Option<Stats>)
        requires
            old(self).wf(),
        ensures
            final(self).wf(),
            final(self)@ == old(self)@.noted(
                match stats {
                    Some(kept) => Some(kept@),
                    None => None,
                },
            ),
            final(self).spec_base() == old(self).spec_base(),
            final(self).spec_canary1() == old(self).spec_canary1(),
    {
        proof {
            reveal(Dir::inv);
        }
        self.stats = stats;
    }

    /// Whether the directory's canary still matches the address it is
    /// registered at.
    pub fn check_integrity(&self) -> (ok: bool)
        ensures
            ok == (self.spec_canary2() == self.spec_canary1() ^ self.spec_base()),
            self.wf() ==> ok,
    {
        proof {
            reveal(Dir::inv);
        }
        self.canary2 == self.canary1 ^ self.base
    }

    /// The page size the directory works with.
    pub fn page_size(&self) -> (page_size: usize)
        ensures
            page_size == self@.page_size,
    {
        proof {
            reveal(Dir::inv);
        }
        self.table.page_size()
    }

    /// Slots of the region table.
    pub fn total(&self) -> (total: usize)
        ensures
            total == self@.total,
    {
        proof {
            reveal(Dir::inv);
        }
        self.table.total()
    }

    /// Unused slots of the region table.
    pub fn free(&self) -> (free: usize)
        requires
            self.wf(),
        ensures
            free == self@.total - self@.used,
    {
        proof {
            reveal(Dir::inv);
        }
        self.table.free()
    }

    /// Number of cached pages.
    pub fn cache_len(&self) -> (len: usize)
        requires
            self.wf(),
        ensures
            len == self@.cache.len(),
    {
        proof {
            reveal(Dir::inv);
        }
        self.cache_len
    }
}

impl Dir {
    /// The slot `index` of the table holds a record, listed or not.
    pub open spec fn holds_at(&self, index: usize) -> bool {
        &&& index < self.spec_table().spec_total()
        &&& occupied(self.spec_table().slots(), index as int)
    }

    /// The record in slot `index` of the table.
    pub open spec fn record_at(&self, index: usize) -> Region {
        self.spec_table().slots()[index as int]
    }

    /// `self` differs from `before` in links and lists at most.
    pub open spec fn relinked(&self, before: &Dir) -> bool {
        &&& self.spec_base() == before.spec_base()
        &&& self.spec_canary1() == before.spec_canary1()
        &&& self.spec_canary2() == before.spec_canary2()
        &&& self@.page_size == before@.page_size
        &&& self@.total == before@.total
        &&& self@.used == before@.used
        &&& self@.regions == before@.regions
        &&& self@.stats == before@.stats
        &&& forall|i: int|
            #![trigger self.spec_table().slots()[i]]
            0 <= i < before@.total ==> same_but_links(
                before.spec_table().slots()[i],
                self.spec_table().slots()[i],
            )
    }

    /// What the invariant says of a record.
    proof fn lemma_record(&self, except: usize, index: usize)
        requires
            self.inv(except),
            self.holds_at(index),
        ensures
            self.records().contains_key(self.spec_table().key(self.record_at(index).object)),
            self.records()[self.spec_table().key(self.record_at(index).object)] == self.record_at(
                index,
            ),
            record_inv(
                self.record_at(index),
                self.spec_table().key(self.record_at(index).object),
                self.spec_canary2(),
                self.spec_page_size(),
            ),
            self.spec_table().wf(),
            valid_page_size(self.spec_page_size()),
            self.spec_lists().len() == MAX_CHUNK_SHIFT,
    {
        reveal(Dir::inv);
        self.table.lemma_slot(index as int);
        self.table.lemma_wf();
        let key = self.table.key(self.record_at(index).object);
        assert(record_inv(self.records()[key], key, self.canary2, self.spec_page_size()));
    }

    /// Puts the chunk in slot `region_index` at the head of the list of
    /// its class.
    fn free_chunk_insert(&mut self, region_index: usize)
        requires
            old(self).inv(old(self).record_at(region_index).object),
            old(self).holds_at(region_index),
            old(self).record_at(region_index).kind == RegionType::Chunk,
            !old(self).spec_lists()[spec_chunk_index(
                old(self).record_at(region_index).size,
            ) as int].contains(old(self).record_at(region_index).object),
            old(self).record_at(region_index).size == 0 ==> old(self).spec_lists()[0].len() == 0,
        ensures
            final(self).inv(old(self).record_at(region_index).object),
            final(self).relinked(old(self)),
            final(self).spec_cached() == old(self).spec_cached(),
            final(self).spec_lists() == old(self).spec_lists().update(
                spec_chunk_index(old(self).record_at(region_index).size) as int,
                seq![old(self).record_at(region_index).object] + old(self).spec_lists()[spec_chunk_index(
                    old(self).record_at(region_index).size,
                ) as int],
            ),
    {
        proof {
            reveal(Dir::inv);
        }
        let ghost before = *self;
        let ghost m0 = self.records();
        let ghost ps = self.spec_page_size();
        let region = *self.table.region_at_index(region_index);
        let ghost except = region.object;
        proof {
            self.lemma_record(except, region_index);
            if region.size != 0 {
                lemma_class_is_chunk_class(region.size, ps);
            }
        }
        let index = chunk_index(region.size);
        let start = self.chunks1[index];
        let end = self.chunks2[index];
        let ghost order = self.lists@[index as int];
        let (head, tail) = list_insert(&mut self.table, start, end, region_index, Ghost(order));
        let ghost m1 = self.records();
        self.chunks1[index] = head;
        self.chunks2[index] = tail;
        self.lists = Ghost(self.lists@.update(index as int, seq![region.object] + order));
        proof {
            lemma_links_views(m0, m1, region.object, start, ps);
            lemma_push_members(order, region.object);
            assert(start == 0 || order.contains(start)) by {
                if order.len() > 0 {
                    assert(order[0] == start);
                }
            }
            lemma_relisted(
                m0,
                m1,
                before.lists@,
                before.cached@,
                before.chunks1@,
                before.chunks2@,
                before.cache1,
                before.cache2,
                before.canary2,
                ps,
                except,
                index as int,
                region.object,
                start,
                seq![region.object] + order,
                head,
                tail,
            );
        }
    }
}

impl Dir {
    /// Takes the chunk in slot `region_index` out of the list of its
    /// class.
    fn free_chunk_remove(&mut self, region_index: usize)
        requires
            old(self).inv(old(self).record_at(region_index).object),
            old(self).holds_at(region_index),
            old(self).record_at(region_index).kind == RegionType::Chunk,
            old(self).record_at(region_index).size != 0,
            old(self).spec_lists()[spec_chunk_index(
                old(self).record_at(region_index).size,
            ) as int].contains(old(self).record_at(region_index).object),
        ensures
            final(self).inv(old(self).record_at(region_index).object),
            final(self).relinked(old(self)),
            final(self).record_at(region_index) == old(self).record_at(region_index),
            final(self).spec_cached() == old(self).spec_cached(),
            final(self).spec_lists() == old(self).spec_lists().update(
                spec_chunk_index(old(self).record_at(region_index).size) as int,
                without(
                    old(self).spec_lists()[spec_chunk_index(
                        old(self).record_at(region_index).size,
                    ) as int],
                    old(self).record_at(region_index).object,
                ),
            ),
    {
        proof {
            reveal(Dir::inv);
        }
        let ghost before = *self;
        let ghost m0 = self.records();
        let ghost ps = self.spec_page_size();
        let region = *self.table.region_at_index(region_index);
        let ghost except = region.object;
        proof {
            self.lemma_record(except, region_index);
            lemma_class_is_chunk_class(region.size, ps);
        }
        let index = chunk_index(region.size);
        let start = self.chunks1[index];
        let end = self.chunks2[index];
        let ghost order = self.lists@[index as int];
        proof {
            assert(list_inv(m0, order, start, end));
        }
        let (head, tail) = list_remove(&mut self.table, start, end, region_index, Ghost(order));
        let ghost m1 = self.records();
        self.chunks1[index] = head;
        self.chunks2[index] = tail;
        self.lists = Ghost(self.lists@.update(index as int, without(order, region.object)));
        proof {
            lemma_links_views(m0, m1, region.prev, region.next, ps);
            lemma_pop_members(order, region.object);
            let pos = order.index_of(region.object);
            assert(order[pos] == region.object);
            if pos > 0 {
                assert(order.contains(order[pos - 1]));
            }
            if pos < order.len() - 1 {
                assert(order.contains(order[pos + 1]));
            }
            lemma_relisted(
                m0,
                m1,
                before.lists@,
                before.cached@,
                before.chunks1@,
                before.chunks2@,
                before.cache1,
                before.cache2,
                before.canary2,
                ps,
                except,
                index as int,
                region.prev,
                region.next,
                without(order, region.object),
                head,
                tail,
            );
        }
    }

    /// Whether the cache has room for another page.
    fn can_cache_chunk(&self, Ghost(except): Ghost<usize>) -> (can: bool)
        requires
            self.inv(except),
        ensures
            can == (self.spec_cached().len() < MAX_CACHE_SIZE),
    {
        proof {
            reveal(Dir::inv);
        }
        USE_CACHE && self.cache_len < MAX_CACHE_SIZE
    }

    /// Whether a page is cached.
    fn has_cached_chunk(&self) -> (has: bool)
        requires
            self.wf(),
        ensures
            has == (self.spec_cached().len() > 0),
    {
        proof {
            reveal(Dir::inv);
        }
        USE_CACHE && self.cache_len > 0
    }

    /// Whether the class of slots of `chunk_size` bytes has a chunk with a
    /// free slot.
    fn has_free_chunk(&self, chunk_size: usize) -> (has: bool)
        requires
            self.wf(),
            chunk_size == 0 || is_class_size(chunk_size, self.spec_page_size()),
        ensures
            has == (self.spec_lists()[spec_chunk_index(chunk_size) as int].len() > 0),
    {
        proof {
            reveal(Dir::inv);
        }
        proof {
            self.table.lemma_wf();
            if chunk_size != 0 {
                lemma_class_is_chunk_class(chunk_size, self.spec_page_size());
            }
            let i = spec_chunk_index(chunk_size) as int;
            assert(list_inv(self.records(), self.lists@[i], self.chunks1@[i], self.chunks2@[i]));
            if self.lists@[i].len() > 0 {
                assert(self.lists@[i][0] != 0);
            }
        }
        self.chunks1[chunk_index(chunk_size)] != 0
    }

    /// Retires the emptied chunk in slot `region_index`, which is in no
    /// list, to the cache.
    fn cache_chunk_insert(&mut self, region_index: usize) -> (effect: Effect)
        requires
            old(self).inv(old(self).record_at(region_index).object),
            old(self).holds_at(region_index),
            old(self).record_at(region_index).kind == RegionType::Chunk,
            old(self).record_at(region_index).size != 0,
            !old(self).spec_lists()[spec_chunk_index(
                old(self).record_at(region_index).size,
            ) as int].contains(old(self).record_at(region_index).object),
            old(self).spec_cached().len() < MAX_CACHE_SIZE,
        ensures
            final(self).wf(),
            final(self)@ == (DirView {
                regions: old(self)@.regions.insert(
                    old(self).record_at(region_index).object,
                    RegionView {
                        object: old(self).record_at(region_index).object,
                        size: 0,
                        kind: RegionType::Cache,
                        free: Set::empty(),
                    },
                ),
                cache: seq![old(self).record_at(region_index).object] + old(self)@.cache,
                ..old(self)@
            }),
            effect == (Effect::Protect {
                ptr: old(self).record_at(region_index).object,
                size: old(self).spec_page_size(),
                prot: Prot::NoAccess,
            }),
            final(self).spec_base() == old(self).spec_base(),
            final(self).spec_canary1() == old(self).spec_canary1(),
    {
        proof {
            reveal(Dir::inv);
        }
        let ghost before = *self;
        let ghost m0 = self.records();
        let ghost ps = self.spec_page_size();
        let mut region = *self.table.region_at_index(region_index);
        let ghost except = region.object;
        proof {
            self.lemma_record(except, region_index);
            lemma_elsewhere(m0, self.lists@, self.cached@, self.canary2, ps, except, except);
        }
        let page_size = self.table.page_size();
        let effect = region.set_as_cache(page_size);
        proof {
            lemma_changed(
                m0,
                self.lists@,
                self.cached@,
                self.chunks1@,
                self.chunks2@,
                self.cache1,
                self.cache2,
                self.canary2,
                ps,
                except,
                region,
            );
        }
        self.table.update(region_index, region);
        let ghost m1 = self.records();
        let start = self.cache1;
        let end = self.cache2;
        let ghost order = self.cached@;
        let (head, tail) = list_insert(&mut self.table, start, end, region_index, Ghost(order));
        let ghost m2 = self.records();
        self.cache1 = head;
        self.cache2 = tail;
        self.cache_len = self.cache_len + 1;
        self.cached = Ghost(seq![region.object] + order);
        proof {
            lemma_links_views(m1, m2, region.object, start, ps);
            lemma_push_members(order, region.object);
            assert(start == 0 || order.contains(start)) by {
                if order.len() > 0 {
                    assert(order[0] == start);
                }
            }
            lemma_recached(
                m1,
                m2,
                before.lists@,
                before.cached@,
                before.chunks1@,
                before.chunks2@,
                before.cache1,
                before.cache2,
                before.canary2,
                ps,
                except,
                region.object,
                start,
                seq![region.object] + order,
                head,
                tail,
            );
            assert(m2.dom().contains(except));
            assert(same_but_links(m1[except], m2[except]));
            assert(listed_inv(m2[except], self.lists@, self.cached@, ps));
            assert(region_view(region, ps) == (RegionView {
                object: except,
                size: 0,
                kind: RegionType::Cache,
                free: Set::empty(),
            }));
        }
        effect
    }

    /// Takes the first (`head`) or the last page out of the cache and
    /// makes it an empty chunk of slots of `chunk_size` bytes, in no list
    /// yet. Gives the slot of its record, its address, and what is to
    /// happen to the page.
    fn cache_chunk_take(&mut self, chunk_size: usize, head: bool) -> (taken: (usize, usize, Effect))
        requires
            old(self).wf(),
            old(self).spec_cached().len() > 0,
            chunk_size == 0 || is_class_size(chunk_size, old(self).spec_page_size()),
        ensures
            taken.1 == end_of(old(self).spec_cached(), head),
            final(self).inv(taken.1),
            final(self).holds_at(taken.0),
            final(self).record_at(taken.0).object == taken.1,
            final(self).record_at(taken.0).kind == RegionType::Chunk,
            final(self).record_at(taken.0).size == chunk_size,
            final(self)@ == (DirView {
                regions: old(self)@.regions.insert(
                    taken.1,
                    fresh_chunk(taken.1, chunk_size, old(self).spec_page_size()),
                ),
                cache: without(old(self)@.cache, taken.1),
                ..old(self)@
            }),
            chunk_size != 0 ==> final(self).record_at(taken.0).spec_empty(
                old(self).spec_page_size(),
            ),
            taken.2 == (Effect::Protect {
                ptr: taken.1,
                size: old(self).spec_page_size(),
                prot: Prot::ReadWrite,
            }),
            final(self).spec_base() == old(self).spec_base(),
            final(self).spec_canary1() == old(self).spec_canary1(),
            forall|i: int|
                0 <= i < MAX_CHUNK_SHIFT ==> !(#[trigger] final(self).spec_lists()[i]).contains(
                    taken.1,
                ),
    {
        proof {
            reveal(Dir::inv);
        }
        let ghost before = *self;
        let ghost m0 = self.records();
        let ghost ps = self.spec_page_size();
        let ghost order = self.cached@;
        let chunk = if head { self.cache1 } else { self.cache2 };
        proof {
            self.table.lemma_wf();
            assert(list_inv(m0, order, self.cache1, self.cache2));
            assert(chunk == end_of(order, head));
            assert(order.contains(chunk)) by {
                assert(order[0] == order.first());
                assert(order[order.len() - 1] == order.last());
            }
            lemma_elsewhere(m0, self.lists@, order, self.canary2, ps, 0, chunk);
            let k = order.index_of(chunk);
            assert(order[k] == chunk && m0[order[k]].object == chunk);
            self.table.lemma_view(chunk);
        }
        let region_index = match self.table.region_find(chunk) {
            Some(index) => index,
            None => unreached(),
        };
        let start = self.cache1;
        let end = self.cache2;
        let (new_head, new_tail) = list_remove(&mut self.table, start, end, region_index, Ghost(order));
        let ghost m1 = self.records();
        self.cache1 = new_head;
        self.cache2 = new_tail;
        self.cache_len = self.cache_len - 1;
        self.cached = Ghost(without(order, chunk));
        let mut region = *self.table.region_at_index(region_index);
        let ghost r0 = m0[chunk];
        proof {
            lemma_links_views(m0, m1, r0.prev, r0.next, ps);
            lemma_pop_members(order, chunk);
            let pos = order.index_of(chunk);
            if pos > 0 {
                assert(order.contains(order[pos - 1]));
            }
            if pos < order.len() - 1 {
                assert(order.contains(order[pos + 1]));
            }
            assert(record_inv(r0, chunk, self.canary2, ps));
            assert(data_inv(m0, before.lists@, order, before.canary2, ps, chunk));
            lemma_recached(
                m0,
                m1,
                before.lists@,
                order,
                before.chunks1@,
                before.chunks2@,
                before.cache1,
                before.cache2,
                before.canary2,
                ps,
                chunk,
                r0.prev,
                r0.next,
                without(order, chunk),
                new_head,
                new_tail,
            );
            self.table.lemma_slot(region_index as int);
            assert(record_inv(region, chunk, self.canary2, ps));
        }
        let page_size = self.table.page_size();
        let effect = region.set_as_chunk(chunk_size, page_size);
        proof {
            assert(record_inv(region, chunk, self.canary2, ps));
            lemma_elsewhere(m1, self.lists@, self.cached@, self.canary2, ps, chunk, chunk);
            lemma_changed(
                m1,
                self.lists@,
                self.cached@,
                self.chunks1@,
                self.chunks2@,
                self.cache1,
                self.cache2,
                self.canary2,
                ps,
                chunk,
                region,
            );
            if chunk_size != 0 {
                lemma_class_size(chunk_size, ps);
                assert(region_view(region, ps).free =~= all_slots(chunk_size, ps));
            }
            assert(region_view(region, ps) == fresh_chunk(chunk, chunk_size, ps));
        }
        self.table.update(region_index, region);
        (region_index, chunk, effect)
    }
}

impl Dir {
    /// A directory that is in order but for one record, which is listed
    /// where it belongs after all, is in order.
    proof fn lemma_inv_wf(&self, except: usize)
        requires
            self.inv(except),
            self.records().contains_key(except) ==> listed_inv(
                self.records()[except],
                self.spec_lists(),
                self.spec_cached(),
                self.spec_page_size(),
            ),
        ensures
            self.wf(),
    {
        reveal(Dir::inv);
    }

    /// A directory that is in order is in order but for any one record.
    proof fn lemma_wf_inv(&self, except: usize)
        requires
            self.wf(),
        ensures
            self.inv(except),
    {
        reveal(Dir::inv);
        let m = self.records();
        self.table.lemma_wf();
        assert forall|key: usize| #![trigger m[key]] m.contains_key(key) implies key != 0 by {
            assert(record_inv(m[key], key, self.canary2, self.spec_page_size()));
        }
    }

    /// What the invariant says of the record under a key.
    proof fn lemma_key(&self, except: usize, key: usize)
        requires
            self.inv(except),
            self.records().contains_key(key),
        ensures
            record_inv(self.records()[key], key, self.spec_canary2(), self.spec_page_size()),
            key != except ==> listed_inv(
                self.records()[key],
                self.spec_lists(),
                self.spec_cached(),
                self.spec_page_size(),
            ),
            self@.regions.contains_key(key),
            self@.regions[key] == region_view(self.records()[key], self.spec_page_size()),
            valid_page_size(self.spec_page_size()),
    {
        reveal(Dir::inv);
        self.table.lemma_wf();
    }

    /// The chunk at either end of a list has a free slot.
    proof fn lemma_chosen(&self, class: usize, chunk_head: bool)
        requires
            self.wf(),
            class == 0 || is_class_size(class, self.spec_page_size()),
            self@.chunks[spec_chunk_index(class) as int].len() > 0,
        ensures
            self.inv(self@.chosen_chunk(class, chunk_head)),
            class != 0 ==> !self.records()[self@.chosen_chunk(class, chunk_head)].spec_full(
                self.spec_page_size(),
            ),
    {
        reveal(Dir::inv);
        let ps = self.spec_page_size();
        let i = spec_chunk_index(class) as int;
        let c = self@.chosen_chunk(class, chunk_head);
        let lists = self.lists@[i];
        self.table.lemma_wf();
        if class != 0 {
            lemma_class_is_chunk_class(class, ps);
        }
        assert(lists.contains(c)) by {
            assert(lists[0] == lists.first());
            assert(lists[lists.len() - 1] == lists.last());
        }
        let k = lists.index_of(c);
        assert(self.lists@[i][k] == c);
        self.lemma_key(0, c);
        self.lemma_wf_inv(c);
        if class != 0 {
            lemma_class_is_chunk_class(self.records()[c].size, ps);
        }
    }

    /// What the invariant says of the lists.
    proof fn lemma_lists(&self, except: usize)
        requires
            self.inv(except),
        ensures
            self.spec_lists().len() == MAX_CHUNK_SHIFT,
            self.spec_lists() == self@.chunks,
            self.spec_cached() == self@.cache,
            self.spec_lists()[0].len() <= 1,
            self.spec_cached().len() <= MAX_CACHE_SIZE,
            self@.page_size == self.spec_page_size(),
            valid_page_size(self.spec_page_size()),
            forall|key: usize| self@.regions.contains_key(key) == self.records().contains_key(key),
            forall|i: int, k: int|
                #![trigger self.spec_lists()[i][k]]
                0 <= i < MAX_CHUNK_SHIFT && 0 <= k < self.spec_lists()[i].len()
                    ==> self.records().contains_key(self.spec_lists()[i][k])
                    && self.records()[self.spec_lists()[i][k]].object == self.spec_lists()[i][k]
                    && self.records()[self.spec_lists()[i][k]].kind == RegionType::Chunk
                    && spec_chunk_index(self.records()[self.spec_lists()[i][k]].size) == i,
    {
        reveal(Dir::inv);
        self.table.lemma_wf();
        let m = self.records();
        assert forall|i: int, k: int|
            #![trigger self.lists@[i][k]]
            0 <= i < MAX_CHUNK_SHIFT && 0 <= k < self.lists@[i].len() implies m[self.lists@[i][k]].object
            == self.lists@[i][k] by {
            assert(list_inv(m, self.lists@[i], self.chunks1@[i], self.chunks2@[i]));
        }
    }
}

impl Dir {
    /// Whether `ptr` can be the answer to `request`.
    fn accepts(&self, request: &MapRequest, ptr: usize) -> (ok: bool)
        requires
            self.wf(),
            request.align == 0,
            request.pos != RangePos::Rand,
            mappable(request.size, self.spec_page_size()),
        ensures
            ok == self@.accepts(*request, ptr),
    {
        proof {
            reveal(Dir::inv);
        }
        proof {
            self.lemma_lists(0);
            lemma_page_ceil(request.size, self.spec_page_size());
        }
        if ptr == 0 {
            return false;
        }
        let page_size = self.table.page_size();
        let base = mask_pointer(ptr, page_size);
        if base < page_size {
            return false;
        }
        if self.table.region_lookup(ptr).is_some() {
            return false;
        }
        let region_size = match page_round(request.size, page_size) {
            Some(n) => n,
            None => { return false; },
        };
        match base.checked_add(region_size) {
            None => { return false; },
            Some(end) => {
                if end.checked_add(page_size).is_none() {
                    return false;
                }
            },
        }
        let room = region_size - request.size;
        let expected = match request.pos {
            RangePos::End => room - room % 16,
            _ => 0,
        };
        ptr - base == expected
    }

    /// Gives the class of slots of `chunk_size` bytes, which has no chunk
    /// with a free slot, an empty chunk: a cached page if there is one,
    /// else the page at `mapped`.
    fn create_chunk(&mut self, chunk_size: usize, mapped: usize, cache_head: bool) -> (r: Result<
        Vec<Effect>,
        Fault,
    >)
        requires
            old(self).wf(),
            chunk_size == 0 || is_class_size(chunk_size, old(self).spec_page_size()),
            old(self)@.chunks[spec_chunk_index(chunk_size) as int].len() == 0,
            old(self)@.cache.len() == 0 ==> old(self)@.accepts(
                chunk_request(old(self).spec_page_size()),
                mapped,
            ),
        ensures
            r is Err <==> old(self)@.cache.len() == 0 && old(self)@.table_full(),
            r matches Err(fault) ==> fault == Fault::Overflow && final(self).wf() && final(self)@
                == old(self)@,
            r matches Ok(effects) ==> {
                &&& final(self)@ == old(self)@.with_chunk(chunk_size, mapped, cache_head)
                &&& effects@ == old(self)@.chunk_effects(chunk_size, mapped, cache_head)
                &&& final(self).inv(final(self)@.chunks[spec_chunk_index(chunk_size) as int][0])
                &&& final(self)@.chunks[spec_chunk_index(chunk_size) as int].len() == 1
                &&& chunk_size != 0 ==> !final(self).records()[final(self)@.chunks[spec_chunk_index(chunk_size) as int][0]].spec_full(
                    old(self).spec_page_size(),
                )
            },
            final(self).spec_base() == old(self).spec_base(),
            final(self).spec_canary1() == old(self).spec_canary1(),
    {
        proof {
            reveal(Dir::inv);
        }
        let ghost before = *self;
        let ghost ps = self.spec_page_size();
        let ghost i = spec_chunk_index(chunk_size) as int;
        proof {
            self.lemma_lists(0);
            if chunk_size != 0 {
                lemma_class_is_chunk_class(chunk_size, ps);
                lemma_class_size(chunk_size, ps);
            }
        }
        let page_size = self.table.page_size();
        let mut effects: Vec<Effect> = Vec::new();
        let region_index: usize;
        let chunk: usize;
        if self.has_cached_chunk() {
            let taken = self.cache_chunk_take(chunk_size, cache_head);
            region_index = taken.0;
            chunk = taken.1;
            effects.push(taken.2);
            proof {
                self.lemma_lists(chunk);
            }
        } else {
            let ghost m0 = self.records();
            proof {
                lemma_page_base(mapped, ps);
                lemma_page_ceil(page_size, ps);
                self.table.lemma_wf();
            }
            match self.table.region_insert(mapped, chunk_size, true, self.canary2) {
                Err(fault) => {
                    return Err(fault);
                },
                Ok(index) => {
                    region_index = index;
                },
            }
            chunk = mapped;
            proof {
                let rec = self.table.slots()[region_index as int];
                assert(rec.wf_chunk(ps) || chunk_size == 0) by {
                    if chunk_size != 0 {
                        assert(forall|k: int| rec.slots(ps) <= k < 128 ==> !rec.slot_free(k));
                    }
                }
                assert(record_inv(rec, mapped, self.canary2, ps));
                lemma_added(
                    m0,
                    self.lists@,
                    self.cached@,
                    self.chunks1@,
                    self.chunks2@,
                    self.cache1,
                    self.cache2,
                    self.canary2,
                    ps,
                    mapped,
                    mapped,
                    rec,
                );
                lemma_elsewhere(m0, self.lists@, self.cached@, self.canary2, ps, 0, mapped);
                if chunk_size != 0 {
                    assert(region_view(rec, ps).free =~= all_slots(chunk_size, ps));
                }
                assert(region_view(rec, ps) == fresh_chunk(mapped, chunk_size, ps));
                self.table.lemma_slot(region_index as int);
                assert(rec.spec_empty(ps) || chunk_size == 0);
            }
        }
        let ghost mid = *self;
        proof {
            assert(mid.inv(chunk));
            assert(!mid.lists@[i].contains(chunk));
        }
        self.free_chunk_insert(region_index);
        if chunk_size == 0 {
            effects.push(Effect::Protect { ptr: chunk, size: page_size, prot: Prot::NoAccess });
        }
        proof {
            let order = seq![chunk] + mid.lists@[i];
            assert(mid.lists@[i] =~= Seq::<usize>::empty());
            assert(order =~= seq![chunk]);
            assert(self.lists@[i] == order);
            assert(self@.chunks =~= before@.chunks.update(i, seq![chunk]));
            assert(effects@ =~= before@.chunk_effects(chunk_size, mapped, cache_head));
            let key = self.table.key(self.record_at(region_index).object);
            self.lemma_record(chunk, region_index);
            assert(same_but_links(mid.record_at(region_index), self.record_at(region_index)));
            if chunk_size != 0 {
                let r0 = mid.record_at(region_index);
                let r1 = self.record_at(region_index);
                assert(r1.mapping == r0.mapping);
                assert(forall|k: int| r1.slot_free(k) == r0.slot_free(k));
                assert(r0.spec_empty(ps));
                assert(r1.slot_free(0));
            }
        }
        Ok(effects)
    }
}

impl Dir {
    /// Takes a slot from the first (`chunk_head`) or the last chunk of the
    /// class of slots of `chunk_size` bytes, which has one. Gives the
    /// slot's address and what is to happen to its bytes.
    #[verifier::rlimit(80)]
    fn take_chunk_slot(&mut self, chunk_size: usize, zero_fill: bool, chunk_head: bool, draw: usize) -> (taken:
        (usize, Vec<Effect>))
        requires
            old(self).inv(old(self)@.chosen_chunk(chunk_size, chunk_head)),
            chunk_size == 0 || is_class_size(chunk_size, old(self).spec_page_size()),
            old(self)@.chunks[spec_chunk_index(chunk_size) as int].len() > 0,
            chunk_size != 0 ==> !old(self).records()[old(self)@.chosen_chunk(
                chunk_size,
                chunk_head,
            )].spec_full(old(self).spec_page_size()),
        ensures
            final(self).wf(),
            final(self)@ == old(self)@.slot_taken(chunk_size, chunk_head, draw),
            taken.0 == old(self)@.slot_ptr(chunk_size, chunk_head, draw),
            taken.0 != 0,
            taken.1@ == if chunk_size != 0 && spec_fill_byte_alloc(zero_fill) is Some {
                seq![
                    Effect::Fill {
                        ptr: taken.0,
                        size: chunk_size,
                        byte: spec_fill_byte_alloc(zero_fill).unwrap(),
                    },
                ]
            } else {
                Seq::<Effect>::empty()
            },
            final(self).spec_base() == old(self).spec_base(),
            final(self).spec_canary1() == old(self).spec_canary1(),
    {
        proof {
            reveal(Dir::inv);
        }
        let ghost ps = self.spec_page_size();
        let ghost i = spec_chunk_index(chunk_size) as int;
        let ghost c = self@.chosen_chunk(chunk_size, chunk_head);
        let ghost m0 = self.records();
        proof {
            self.lemma_lists(c);
            if chunk_size != 0 {
                lemma_class_is_chunk_class(chunk_size, ps);
                lemma_class_size(chunk_size, ps);
            }
            assert(list_inv(m0, self.lists@[i], self.chunks1@[i], self.chunks2@[i]));
            assert(self.lists@[i].contains(c)) by {
                assert(self.lists@[i][0] == self.lists@[i].first());
                assert(self.lists@[i][self.lists@[i].len() - 1] == self.lists@[i].last());
            }
            let k = self.lists@[i].index_of(c);
            assert(self.lists@[i][k] == c);
            self.lemma_key(c, c);
        }
        let page_size = self.table.page_size();
        let index = chunk_index(chunk_size);
        let chunk = if chunk_head { self.chunks1[index] } else { self.chunks2[index] };
        let mut effects: Vec<Effect> = Vec::new();
        if index == 0 {
            proof {
                self.lemma_inv_wf(c);
            }
            return (chunk, effects);
        }
        proof {
            self.table.lemma_view(c);
        }
        let region_index = match self.table.region_find(chunk) {
            Some(found) => found,
            None => unreached(),
        };
        let mut region = *self.table.region_at_index(region_index);
        let ghost r0 = region;
        proof {
            lemma_class_is_chunk_class(r0.size, ps);
            assert(r0.size == chunk_size);
        }
        let max_slot_index = max_slot_index(chunk_size, page_size);
        let start = draw % max_slot_index;
        assert(start < max_slot_index) by (nonlinear_arith)
            requires
                start == draw % max_slot_index,
                max_slot_index > 0,
        ;
        let slot_index = region.take_chunk_slot(page_size, start);
        let full = region.is_full_chunk(page_size);
        proof {
            lemma_changed(
                m0,
                self.lists@,
                self.cached@,
                self.chunks1@,
                self.chunks2@,
                self.cache1,
                self.cache2,
                self.canary2,
                ps,
                c,
                region,
            );
            lemma_offset_of_slot(slot_index as int, chunk_size, ps);
            lemma_nearest(
                region_view(r0, ps).free,
                max_slot_index as int,
                start as int,
                slot_index as int,
            );
            assert(region_view(region, ps).free =~= region_view(r0, ps).free.remove(
                slot_index as int,
            ));
            assert(full == (region_view(region, ps).free =~= Set::<int>::empty())) by {
                if !full {
                    let k = choose|k: int| 0 <= k < region.slots(ps) && region.slot_free(k);
                    assert(region_view(region, ps).free.contains(k));
                }
            }
            assert(!region.spec_empty(ps)) by {
                assert(!region.slot_free(slot_index as int));
            }
        }
        self.table.update(region_index, region);
        let ghost mid = *self;
        if full {
            self.free_chunk_remove(region_index);
            proof {
                lemma_pop_members(mid.lists@[i], c);
                assert(self.record_at(region_index) == region);
                self.lemma_record(c, region_index);
            }
        } else {
            proof {
                self.lemma_record(c, region_index);
            }
        }
        proof {
            self.lemma_inv_wf(c);
            self.lemma_lists(0);
        }
        let slot = chunk + slot_index * chunk_size;
        match fill_byte_alloc(zero_fill) {
            Some(byte) => {
                effects.push(Effect::Fill { ptr: slot, size: chunk_size, byte });
            },
            None => {},
        }
        proof {
            assert(effects@ =~= if spec_fill_byte_alloc(zero_fill) is Some {
                seq![
                    Effect::Fill {
                        ptr: slot,
                        size: chunk_size,
                        byte: spec_fill_byte_alloc(zero_fill).unwrap(),
                    },
                ]
            } else {
                Seq::<Effect>::empty()
            });
        }
        (slot, effects)
    }

    /// Serves a request that gets a mapping of its own.
    #[verifier::rlimit(80)]
    fn alloc_large(
        &mut self,
        size: usize,
        zero_fill: bool,
        force_large: bool,
        mapped: Option<usize>,
        draws: Draws,
    ) -> (r: Result<AllocStep, Fault>)
        requires
            old(self).wf(),
            is_large(size, force_large, old(self).spec_page_size()),
        ensures
            final(self).wf(),
            final(self).spec_base() == old(self).spec_base(),
            final(self).spec_canary1() == old(self).spec_canary1(),
            old(self)@.alloc_served(final(self)@, r, size, zero_fill, force_large, mapped, draws),
    {
        proof {
            reveal(Dir::inv);
        }
        let ghost ps = self.spec_page_size();
        proof {
            self.lemma_find(0, 0);
        }
        let page_size = self.table.page_size();
        let region_size = match page_round(size, page_size) {
            Some(n) => n,
            None => { return Err(Fault::Overflow); },
        };
        match region_size.checked_add(2 * page_size) {
            Some(full_size) => {
                if utils::to_isize(full_size).is_none() {
                    return Err(Fault::Overflow);
                }
            },
            None => { return Err(Fault::Overflow); },
        }
        let request = MapRequest {
            size,
            align: 0,
            fill: fill_byte_alloc(zero_fill),
            prot: if force_large { Prot::Write } else { Prot::ReadWrite },
            pos: if force_large { RangePos::End } else { RangePos::Start },
        };
        let object = match mapped {
            None => { return Ok(AllocStep::NeedMap(request)); },
            Some(object) => object,
        };
        if !self.accepts(&request, object) {
            return Err(Fault::Mapping);
        }
        let ghost m0 = self.records();
        proof {
            self.table.lemma_wf();
        }
        match self.table.region_insert(object, size, false, self.canary2) {
            Err(fault) => Err(fault),
            Ok(index) => {
                proof {
                    let rec = self.table.slots()[index as int];
                    let key = page_base(object, ps);
                    assert(record_inv(rec, key, self.canary2, ps));
                    lemma_added(
                        m0,
                        self.lists@,
                        self.cached@,
                        self.chunks1@,
                        self.chunks2@,
                        self.cache1,
                        self.cache2,
                        self.canary2,
                        ps,
                        0,
                        key,
                        rec,
                    );
                    assert(region_view(rec, ps) == (RegionView {
                        object,
                        size,
                        kind: RegionType::Large,
                        free: Set::empty(),
                    }));
                }
                Ok(AllocStep::Done { ptr: object, effects: Vec::new() })
            },
        }
    }

    /// Takes a slot of `class` bytes, making a chunk of the class out of
    /// a cached page or of the page at `page` first if it has none with a
    /// free slot.
    #[verifier::rlimit(80)]
    fn alloc_slot(&mut self, class: usize, zero_fill: bool, page: usize, draws: Draws) -> (r:
        Result<(usize, Vec<Effect>), Fault>)
        requires
            old(self).wf(),
            class == 0 || is_class_size(class, old(self).spec_page_size()),
            old(self)@.chunks[spec_chunk_index(class) as int].len() == 0 && old(self)@.cache.len()
                == 0 ==> old(self)@.accepts(chunk_request(old(self).spec_page_size()), page),
        ensures
            final(self).wf(),
            final(self).spec_base() == old(self).spec_base(),
            final(self).spec_canary1() == old(self).spec_canary1(),
            r is Err <==> old(self)@.chunks[spec_chunk_index(class) as int].len() == 0 && old(self)@.cache.len() == 0 && old(self)@.table_full(),
            r matches Err(fault) ==> fault == Fault::Overflow && final(self)@ == old(self)@,
            r matches Ok(served) ==> {
                &&& final(self)@ == old(self)@.with_chunk(class, page, draws.cache_head).slot_taken(
                    class,
                    draws.chunk_head,
                    draws.slot,
                )
                &&& served.0 == old(self)@.with_chunk(class, page, draws.cache_head).slot_ptr(
                    class,
                    draws.chunk_head,
                    draws.slot,
                )
                &&& served.0 != 0
                &&& served.1@ == old(self)@.chunk_effects(class, page, draws.cache_head) + (if class
                    != 0 && spec_fill_byte_alloc(zero_fill) is Some {
                    seq![
                        Effect::Fill {
                            ptr: served.0,
                            size: class,
                            byte: spec_fill_byte_alloc(zero_fill).unwrap(),
                        },
                    ]
                } else {
                    Seq::<Effect>::empty()
                })
            },
    {
        proof {
            reveal(Dir::inv);
        }
        let ghost before = *self;
        let ghost i = spec_chunk_index(class) as int;
        let mut effects: Vec<Effect> = Vec::new();
        if !self.has_free_chunk(class) {
            match self.create_chunk(class, page, draws.cache_head) {
                Err(fault) => { return Err(fault); },
                Ok(made) => {
                    effects = made;
                },
            }
            proof {
                let lists = self@.chunks[i];
                assert(lists[0] == lists.first() && lists[0] == lists.last());
            }
        } else {
            proof {
                self.lemma_chosen(class, draws.chunk_head);
                assert(effects@ =~= before@.chunk_effects(class, page, draws.cache_head));
            }
        }
        let taken = self.take_chunk_slot(class, zero_fill, draws.chunk_head, draws.slot);
        let ptr = taken.0;
        let mut fill = taken.1;
        effects.append(&mut fill);
        Ok((ptr, effects))
    }

    /// Serves a request that gets a slot of a chunk.
    fn alloc_chunk(
        &mut self,
        size: usize,
        zero_fill: bool,
        mapped: Option<usize>,
        draws: Draws,
    ) -> (r: Result<AllocStep, Fault>)
        requires
            old(self).wf(),
            !is_large(size, false, old(self).spec_page_size()),
        ensures
            final(self).wf(),
            final(self).spec_base() == old(self).spec_base(),
            final(self).spec_canary1() == old(self).spec_canary1(),
            old(self)@.alloc_served(final(self)@, r, size, zero_fill, false, mapped, draws),
    {
        proof {
            self.lemma_find(0, 0);
        }
        let page_size = self.table.page_size();
        let class = chunk_size(size, page_size);
        let page: usize;
        if self.has_free_chunk(class) || self.has_cached_chunk() {
            if mapped.is_some() {
                return Err(Fault::Mapping);
            }
            page = 0;
        } else {
            let request = MapRequest {
                size: page_size,
                align: 0,
                fill: fill_byte_alloc(false),
                prot: Prot::ReadWrite,
                pos: RangePos::Start,
            };
            match mapped {
                None => { return Ok(AllocStep::NeedMap(request)); },
                Some(given) => {
                    if !self.accepts(&request, given) {
                        return Err(Fault::Mapping);
                    }
                    page = given;
                },
            }
        }
        match self.alloc_slot(class, zero_fill, page, draws) {
            Err(fault) => Err(fault),
            Ok(served) => Ok(AllocStep::Done { ptr: served.0, effects: served.1 }),
        }
    }

    /// Serves a request for `size` bytes with the draws given.
    ///
    /// A request above half a page, and any request with `force_large`
    /// set, gets a mapping of its own; one with `force_large` set is
    /// placed at the end of its pages and starts out write-only. Any
    /// other request gets a slot of the chunk class that fits it. Where
    /// pages have to be mapped first the answer is `NeedMap`, and the
    /// request is to be repeated with `mapped` set to their address;
    /// `mapped` must not be set otherwise.
    pub fn alloc_with(
        &mut self,
        size: usize,
        zero_fill: bool,
        force_large: bool,
        mapped: Option<usize>,
        draws: Draws,
    ) -> (r: Result<AllocStep, Fault>)
        requires
            old(self).wf(),
        ensures
            final(self).wf(),
            final(self).spec_base() == old(self).spec_base(),
            final(self).spec_canary1() == old(self).spec_canary1(),
            old(self)@.alloc_outcome(final(self)@, r, size, zero_fill, force_large, mapped, draws),
    {
        proof {
            self.lemma_find(0, 0);
        }
        let page_size = self.table.page_size();
        if force_large || size > max_chunk_size(page_size) {
            let r = self.alloc_large(size, zero_fill, force_large, mapped, draws);
            let served = match &r {
                Ok(AllocStep::Done { .. }) => true,
                _ => false,
            };
            match self.stats {
                Some(mut stats) => {
                    if served {
                        stats.note_large(size, force_large);
                        self.note(Some(stats));
                    }
                },
                None => {
                    proof {
                        reveal(Dir::inv);
                    }
                },
            }
            r
        } else {
            let class = chunk_size(size, page_size);
            proof {
                if class != 0 {
                    lemma_class_is_chunk_class(class, page_size);
                }
            }
            let index = chunk_index(class);
            let reused = !self.has_free_chunk(class) && self.has_cached_chunk();
            let r = self.alloc_chunk(size, zero_fill, mapped, draws);
            let served = match &r {
                Ok(AllocStep::Done { .. }) => true,
                _ => false,
            };
            match self.stats {
                Some(mut stats) => {
                    if served {
                        stats.note_small(index, reused);
                        self.note(Some(stats));
                    }
                },
                None => {
                    proof {
                        reveal(Dir::inv);
                    }
                },
            }
            r
        }
    }

    /// Serves a request for `size` bytes, drawing which cached page to
    /// reuse, which chunk of the class to take the slot from, and where
    /// the search for a free slot starts.
    pub fn allocate(&mut self, size: usize, zero_fill: bool, force_large: bool, mapped: Option<usize>) -> (r:
        Result<AllocStep, Fault>)
        requires
            old(self).wf(),
        ensures
            final(self).wf(),
            final(self).spec_base() == old(self).spec_base(),
            final(self).spec_canary1() == old(self).spec_canary1(),
            exists|draws: Draws|
                old(self)@.alloc_outcome(
                    final(self)@,
                    r,
                    size,
                    zero_fill,
                    force_large,
                    mapped,
                    draws,
                ),
    {
        let draws = Draws {
            cache_head: utils::gen_range(0, 2) == 1,
            chunk_head: utils::gen_range(0, 2) == 1,
            slot: utils::gen_range(0, MAX_CHUNK_MAPPING * 8),
        };
        self.alloc_with(size, zero_fill, force_large, mapped, draws)
    }
}

impl Dir {
    /// What a lookup in the table says of the view.
    proof fn lemma_find(&self, except: usize, ptr: usize)
        requires
            self.inv(except),
        ensures
            self@.page_size == self.spec_page_size(),
            self@.cache == self.spec_cached(),
            self@.chunks == self.spec_lists(),
            self@.total == self.spec_table().spec_total(),
            self@.used == self.spec_table().spec_used(),
            self.spec_table().wf(),
            self@.chunks.len() == MAX_CHUNK_SHIFT,
            self@.find(ptr) is Some <==> self.spec_table().spec_find(ptr) is Some,
            self@.find(ptr) is Some ==> self@.find(ptr).unwrap() == region_view(
                self.spec_table().spec_find(ptr).unwrap(),
                self.spec_page_size(),
            ) && self.records().contains_key(page_base(ptr, self.spec_page_size()))
                && self.records()[page_base(ptr, self.spec_page_size())]
                == self.spec_table().spec_find(ptr).unwrap() && record_inv(
                self.spec_table().spec_find(ptr).unwrap(),
                page_base(ptr, self.spec_page_size()),
                self.spec_canary2(),
                self.spec_page_size(),
            ),
            valid_page_size(self.spec_page_size()),
    {
        reveal(Dir::inv);
        self.table.lemma_wf();
        let key = page_base(ptr, self.spec_page_size());
        if self.records().contains_key(key) {
            assert(record_inv(self.records()[key], key, self.canary2, self.spec_page_size()));
        }
    }

    /// Gives back the slot at `offset` bytes into the chunk in slot
    /// `region_index`. A chunk that was full enters the list of its class;
    /// one that has become empty leaves it. Gives what is to happen to
    /// the slot's bytes, and whether the chunk has become empty.
    #[verifier::rlimit(80)]
    fn free_chunk_slot(&mut self, region_index: usize, offset: usize) -> (r: Result<
        (Effect, bool),
        Fault,
    >)
        requires
            old(self).wf(),
            old(self).holds_at(region_index),
            old(self).record_at(region_index).kind == RegionType::Chunk,
            old(self).record_at(region_index).size != 0,
            offset < old(self).spec_page_size(),
        ensures
            final(self).spec_base() == old(self).spec_base(),
            final(self).spec_canary1() == old(self).spec_canary1(),
            match old(self).record_at(region_index).free_slot_fault(
                offset,
                old(self).spec_page_size(),
            ) {
                Some(fault) => r == Err::<(Effect, bool), Fault>(fault) && final(self).wf() && final(self)@ == old(self)@,
                None => {
                    let r0 = old(self).record_at(region_index);
                    let v0 = region_view(r0, old(self).spec_page_size());
                    let slot = (offset as int) / (r0.size as int);
                    let i = spec_chunk_index(r0.size) as int;
                    let entered = if v0.free =~= Set::<int>::empty() {
                        old(self)@.chunks.update(i, seq![r0.object] + old(self)@.chunks[i])
                    } else {
                        old(self)@.chunks
                    };
                    &&& r matches Ok(freed)
                    &&& freed.0 == (Effect::Fill {
                        ptr: (r0.object + offset) as usize,
                        size: r0.size,
                        byte: spec_fill_byte_dealloc().unwrap(),
                    })
                    &&& freed.1 == (v0.free.insert(slot) == all_slots(
                        r0.size,
                        old(self).spec_page_size(),
                    ))
                    &&& final(self).inv(r0.object)
                    &&& !freed.1 ==> final(self).wf()
                    &&& final(self).holds_at(region_index)
                    &&& final(self).record_at(region_index).object == r0.object
                    &&& final(self).record_at(region_index).kind == RegionType::Chunk
                    &&& final(self).record_at(region_index).size == r0.size
                    &&& freed.1 ==> !final(self).spec_lists()[i].contains(r0.object)
                    &&& final(self)@ == (DirView {
                        regions: old(self)@.regions.insert(
                            r0.object,
                            RegionView { free: v0.free.insert(slot), ..v0 },
                        ),
                        chunks: if freed.1 {
                            entered.update(i, without(entered[i], r0.object))
                        } else {
                            entered
                        },
                        ..old(self)@
                    })
                },
            },
    {
        proof {
            reveal(Dir::inv);
        }
        let ghost ps = self.spec_page_size();
        let ghost m0 = self.records();
        let mut region = *self.table.region_at_index(region_index);
        let ghost r0 = region;
        let ghost key = r0.object;
        let ghost i = spec_chunk_index(r0.size) as int;
        proof {
            self.lemma_record(0, region_index);
            self.lemma_key(0, key);
            self.lemma_find(0, key);
            lemma_class_size(r0.size, ps);
            lemma_class_is_chunk_class(r0.size, ps);
            lemma_free_set(r0, ps);
        }
        let page_size = self.table.page_size();
        let was_full = region.is_full_chunk(page_size);
        let effect = match region.free_chunk_slot(offset, page_size) {
            Err(fault) => { return Err(fault); },
            Ok(effect) => effect,
        };
        let is_empty = region.is_empty_chunk(page_size);
        proof {
            lemma_slot_of_offset(offset, r0.size, ps);
            lemma_freed_view(r0, region, ps, (offset as int) / (r0.size as int));
            lemma_free_set(region, ps);
            self.lemma_wf_inv(key);
            lemma_changed(
                m0,
                self.lists@,
                self.cached@,
                self.chunks1@,
                self.chunks2@,
                self.cache1,
                self.cache2,
                self.canary2,
                ps,
                key,
                region,
            );
        }
        self.table.update(region_index, region);
        let ghost mid = *self;
        if was_full {
            self.free_chunk_insert(region_index);
            proof {
                lemma_push_members(mid.lists@[i], key);
            }
        }
        let ghost entered = *self;
        if is_empty {
            proof {
                assert(same_but_links(mid.record_at(region_index), self.record_at(region_index)));
            }
            self.free_chunk_remove(region_index);
            proof {
                assert(list_inv(
                    entered.records(),
                    entered.lists@[i],
                    entered.chunks1@[i],
                    entered.chunks2@[i],
                ));
                lemma_pop_members(entered.lists@[i], key);
            }
        }
        proof {
            assert(same_but_links(mid.record_at(region_index), self.record_at(region_index)));
            self.lemma_record(key, region_index);
            let r1 = self.record_at(region_index);
            assert(r1.mapping == region.mapping);
            assert(forall|k: int| r1.slot_free(k) == region.slot_free(k));
            assert(r1.spec_full(ps) == region.spec_full(ps));
            assert(r1.spec_empty(ps) == region.spec_empty(ps));
            if !is_empty {
                self.lemma_inv_wf(key);
            }
        }
        Ok((effect, is_empty))
    }
}

impl Dir {
    /// The fault that would refuse to free `ptr`, if any.
    pub fn dealloc_check(&self, ptr: usize) -> (fault: Option<Fault>)
        requires
            self.wf(),
        ensures
            fault == self@.dealloc_fault(ptr),
    {
        proof {
            reveal(Dir::inv);
        }
        if ptr == 0 {
            return None;
        }
        proof {
            self.lemma_find(0, ptr);
        }
        let page_size = self.table.page_size();
        let region_index = match self.table.region_find(ptr) {
            Some(index) => index,
            None => { return Some(Fault::UnknownPointer); },
        };
        let region = self.table.region_at_index(region_index);
        match region.kind {
            RegionType::Chunk => {
                if region.size == 0 {
                    return None;
                }
                proof {
                    lemma_page_base(ptr, self.spec_page_size());
                    lemma_class_size(region.size, self.spec_page_size());
                    lemma_free_set(*region, self.spec_page_size());
                }
                let offset = ptr - region.object;
                if offset % region.size != 0 {
                    return Some(Fault::Misaligned);
                }
                proof {
                    lemma_slot_of_offset(offset, region.size, self.spec_page_size());
                }
                if region.chunk_slot_is_free(offset / region.size) {
                    return Some(Fault::DoubleFree);
                }
                None
            },
            RegionType::Large => None,
            _ => Some(Fault::WrongKind),
        }
    }

    /// Gives up the chunk in slot `region_index`, which has no allocation
    /// left and is in no list: to the cache if that has room, for good
    /// otherwise.
    fn retire_chunk(&mut self, region_index: usize) -> (effect: Effect)
        requires
            old(self).inv(old(self).record_at(region_index).object),
            old(self).holds_at(region_index),
            old(self).record_at(region_index).kind == RegionType::Chunk,
            old(self).record_at(region_index).size != 0,
            !old(self).spec_lists()[spec_chunk_index(
                old(self).record_at(region_index).size,
            ) as int].contains(old(self).record_at(region_index).object),
        ensures
            final(self).wf(),
            final(self).spec_base() == old(self).spec_base(),
            final(self).spec_canary1() == old(self).spec_canary1(),
            old(self)@.cache.len() < MAX_CACHE_SIZE ==> final(self)@ == (DirView {
                regions: old(self)@.regions.insert(
                    old(self).record_at(region_index).object,
                    RegionView {
                        object: old(self).record_at(region_index).object,
                        size: 0,
                        kind: RegionType::Cache,
                        free: Set::empty(),
                    },
                ),
                cache: seq![old(self).record_at(region_index).object] + old(self)@.cache,
                ..old(self)@
            }) && effect == (Effect::Protect {
                ptr: old(self).record_at(region_index).object,
                size: old(self).spec_page_size(),
                prot: Prot::NoAccess,
            }),
            old(self)@.cache.len() >= MAX_CACHE_SIZE ==> final(self)@ == old(self)@.without_region(
                old(self).record_at(region_index).object,
            ) && effect == (Effect::Unmap {
                ptr: old(self).record_at(region_index).object,
                size: old(self).spec_page_size(),
                fill: None,
            }),
    {
        proof {
            self.lemma_find(self.record_at(region_index).object, 0);
        }
        if self.can_cache_chunk(Ghost(self.record_at(region_index).object)) {
            self.cache_chunk_insert(region_index)
        } else {
            self.drop_chunk(region_index)
        }
    }

    /// Gives up the chunk in slot `region_index`, which is in no list,
    /// for good.
    fn drop_chunk(&mut self, region_index: usize) -> (effect: Effect)
        requires
            old(self).inv(old(self).record_at(region_index).object),
            old(self).holds_at(region_index),
            old(self).record_at(region_index).kind == RegionType::Chunk,
            old(self).record_at(region_index).size != 0,
            !old(self).spec_lists()[spec_chunk_index(
                old(self).record_at(region_index).size,
            ) as int].contains(old(self).record_at(region_index).object),
        ensures
            final(self).wf(),
            final(self).spec_base() == old(self).spec_base(),
            final(self).spec_canary1() == old(self).spec_canary1(),
            final(self)@ == old(self)@.without_region(old(self).record_at(region_index).object),
            effect == (Effect::Unmap {
                ptr: old(self).record_at(region_index).object,
                size: old(self).spec_page_size(),
                fill: None,
            }),
    {
        proof {
            reveal(Dir::inv);
        }
        let ghost ps = self.spec_page_size();
        let ghost key = self.record_at(region_index).object;
        let page_size = self.table.page_size();
        let ghost m1 = self.records();
        let mut emptied = *self.table.region_at_index(region_index);
        let released = emptied.dealloc_data(false, page_size);
        proof {
            self.lemma_record(key, region_index);
            lemma_elsewhere(m1, self.lists@, self.cached@, self.canary2, ps, key, key);
            lemma_dropped(
                m1,
                self.lists@,
                self.cached@,
                self.chunks1@,
                self.chunks2@,
                self.cache1,
                self.cache2,
                self.canary2,
                ps,
                key,
            );
        }
        self.table.region_delete(region_index);
        released
    }

    /// Gives up the large object in slot `region_index`.
    fn dealloc_large(&mut self, region_index: usize) -> (effect: Effect)
        requires
            old(self).wf(),
            old(self).holds_at(region_index),
            old(self).record_at(region_index).kind == RegionType::Large,
        ensures
            final(self).wf(),
            final(self).spec_base() == old(self).spec_base(),
            final(self).spec_canary1() == old(self).spec_canary1(),
            final(self)@ == old(self)@.without_region(
                page_base(old(self).record_at(region_index).object, old(self).spec_page_size()),
            ),
            effect == (Effect::Unmap {
                ptr: old(self).record_at(region_index).object,
                size: old(self).record_at(region_index).size,
                fill: spec_fill_byte_dealloc(),
            }),
    {
        proof {
            reveal(Dir::inv);
        }
        let ghost ps = self.spec_page_size();
        let ghost key = page_base(self.record_at(region_index).object, ps);
        let ghost m0 = self.records();
        let page_size = self.table.page_size();
        let mut region = *self.table.region_at_index(region_index);
        let released = region.dealloc_data(false, page_size);
        proof {
            self.lemma_record(0, region_index);
            self.lemma_wf_inv(key);
            lemma_elsewhere(m0, self.lists@, self.cached@, self.canary2, ps, key, key);
            lemma_dropped(
                m0,
                self.lists@,
                self.cached@,
                self.chunks1@,
                self.chunks2@,
                self.cache1,
                self.cache2,
                self.canary2,
                ps,
                key,
            );
        }
        self.table.region_delete(region_index);
        released
    }

    /// Gives the slot at `ptr` back to the chunk in slot `region_index`.
    #[verifier::rlimit(80)]
    fn dealloc_slot(&mut self, region_index: usize, ptr: usize) -> (r: Result<Vec<Effect>, Fault>)
        requires
            old(self).wf(),
            ptr != 0,
            old(self).holds_at(region_index),
            old(self).spec_table().spec_find(ptr) == Some(old(self).record_at(region_index)),
            old(self).record_at(region_index).kind == RegionType::Chunk,
            old(self).record_at(region_index).size != 0,
        ensures
            final(self).wf(),
            final(self).spec_base() == old(self).spec_base(),
            final(self).spec_canary1() == old(self).spec_canary1(),
            match old(self)@.dealloc_fault(ptr) {
                Some(fault) => r == Err::<Vec<Effect>, Fault>(fault) && final(self)@ == old(self)@,
                None => r matches Ok(effects) && effects@ == old(self)@.dealloc_effects(ptr)
                    && final(self)@ == old(self)@.dealloc_state(ptr),
            },
    {
        let ghost before = *self;
        let ghost ps = self.spec_page_size();
        let region = *self.table.region_at_index(region_index);
        let ghost r0 = region;
        proof {
            self.lemma_find(0, ptr);
            lemma_page_base(ptr, ps);
            lemma_class_size(r0.size, ps);
            lemma_class_is_chunk_class(r0.size, ps);
            lemma_free_set(r0, ps);
            if (ptr - r0.object) % (r0.size as int) == 0 {
                lemma_slot_of_offset((ptr - r0.object) as usize, r0.size, ps);
            }
        }
        let mut effects: Vec<Effect> = Vec::new();
        let chunk_offset = ptr - region.object;
        let freed = match self.free_chunk_slot(region_index, chunk_offset) {
            Err(fault) => { return Err(fault); },
            Ok(freed) => freed,
        };
        effects.push(freed.0);
        if freed.1 {
            let retired = self.retire_chunk(region_index);
            effects.push(retired);
        }
        proof {
            assert(before@.frees_slot(ptr));
            assert(!before@.frees_large(ptr));
            assert(freed.1 == before@.empties_chunk(ptr));
            assert(effects@ =~= before@.dealloc_effects(ptr));
            let want = before@.dealloc_state(ptr);
            assert(self@.regions =~= want.regions);
            assert(self@.chunks == want.chunks);
            assert(self@.cache == want.cache);
            assert(self@.total == want.total);
            assert(self@.used == want.used);
            assert(self@.page_size == want.page_size);
        }
        Ok(effects)
    }

    /// Frees the allocation at `ptr`, without counting it.
    fn dealloc_served(&mut self, ptr: usize) -> (r: Result<Vec<Effect>, Fault>)
        requires
            old(self).wf(),
        ensures
            final(self).wf(),
            final(self).spec_base() == old(self).spec_base(),
            final(self).spec_canary1() == old(self).spec_canary1(),
            old(self)@.dealloc_served(final(self)@, r, ptr),
    {
        if ptr == 0 {
            return Ok(Vec::new());
        }
        proof {
            self.lemma_find(0, ptr);
        }
        let region_index = match self.table.region_find(ptr) {
            Some(index) => index,
            None => { return Err(Fault::UnknownPointer); },
        };
        let region = self.table.region_at_index(region_index);
        match region.kind {
            RegionType::Chunk => {
                if region.size == 0 {
                    return Ok(Vec::new());
                }
                self.dealloc_slot(region_index, ptr)
            },
            RegionType::Large => {
                let ghost before = *self;
                let mut effects: Vec<Effect> = Vec::new();
                let released = self.dealloc_large(region_index);
                effects.push(released);
                proof {
                    assert(effects@ =~= before@.dealloc_effects(ptr));
                }
                Ok(effects)
            },
            _ => Err(Fault::WrongKind),
        }
    }

    /// Frees the allocation at `ptr`. Null is accepted and nothing
    /// happens, and so is the address that empty requests are served
    /// with. A slot goes back to its chunk; a chunk without allocations
    /// goes to the cache if that has room and is given up otherwise; a
    /// large object is given up.
    pub fn dealloc(&mut self, ptr: usize) -> (r: Result<Vec<Effect>, Fault>)
        requires
            old(self).wf(),
        ensures
            final(self).wf(),
            final(self).spec_base() == old(self).spec_base(),
            final(self).spec_canary1() == old(self).spec_canary1(),
            old(self)@.dealloc_outcome(final(self)@, r, ptr),
    {
        let ghost before = self@;
        proof {
            self.lemma_find(0, ptr);
        }
        let chunk = ptr != 0 && match self.table.region_find(ptr) {
            Some(index) => self.table.region_at_index(index).is_chunk(),
            None => false,
        };
        let cached_before = self.cache_len();
        let r = self.dealloc_served(ptr);
        match self.stats {
            Some(mut stats) => {
                if chunk && r.is_ok() {
                    proof {
                        self.lemma_find(0, ptr);
                        lemma_push_members(before.cache, before.find(ptr).unwrap().object);
                    }
                    let cached = self.cache_len() > cached_before;
                    stats.note_freed(cached);
                    self.note(Some(stats));
                }
            },
            None => {
                proof {
                    reveal(Dir::inv);
                }
            },
        }
        r
    }

    /// Asks for the protection `prot` on the large object at `ptr`. Null
    /// is accepted and nothing happens. Nothing changes in the directory
    /// but its statistics.
    pub fn protect(&mut self, ptr: usize, prot: Prot) -> (r: Result<Vec<Effect>, Fault>)
        requires
            old(self).wf(),
        ensures
            final(self).wf(),
            final(self).spec_base() == old(self).spec_base(),
            final(self).spec_canary1() == old(self).spec_canary1(),
            old(self)@.protect_outcome(final(self)@, r, ptr, prot),
    {
        let r = self.protect_effects(ptr, prot);
        match self.stats {
            Some(mut stats) => {
                if ptr != 0 && r.is_ok() {
                    stats.note_protect(prot);
                    self.note(Some(stats));
                }
            },
            None => {
                proof {
                    reveal(Dir::inv);
                }
            },
        }
        r
    }

    /// The change of protection that is asked of the driver for `ptr`.
    fn protect_effects(&self, ptr: usize, prot: Prot) -> (r: Result<Vec<Effect>, Fault>)
        requires
            self.wf(),
        ensures
            match self@.protect_fault(ptr) {
                Some(fault) => r == Err::<Vec<Effect>, Fault>(fault),
                None => r matches Ok(effects) && effects@ == self@.protect_effects(ptr, prot),
            },
    {
        proof {
            reveal(Dir::inv);
        }
        let mut effects: Vec<Effect> = Vec::new();
        if ptr == 0 {
            return Ok(effects);
        }
        proof {
            self.lemma_find(0, ptr);
        }
        let region_index = match self.table.region_find(ptr) {
            Some(index) => index,
            None => { return Err(Fault::UnknownPointer); },
        };
        let region = self.table.region_at_index(region_index);
        if region.kind != RegionType::Large {
            return Err(Fault::WrongKind);
        }
        effects.push(Effect::Protect { ptr: region.object, size: region.size, prot });
        proof {
            assert(effects@ =~= self@.protect_effects(ptr, prot));
        }
        Ok(effects)
    }
}

impl Dir {
    /// The page size of a directory in order is valid.
    pub proof fn lemma_page_size(&self)
        requires
            self.wf(),
        ensures
            valid_page_size(self@.page_size),
    {
        reveal(Dir::inv);
        self.table.lemma_wf();
    }

    /// The members of the cache are cached pages.
    proof fn lemma_cache_sound(&self)
        requires
            self.wf(),
        ensures
            self@.cache_sound(),
            valid_page_size(self@.page_size),
    {
        reveal(Dir::inv);
        self.table.lemma_wf();
        let m = self.records();
        assert forall|k: int| #![trigger self@.cache[k]] 0 <= k < self@.cache.len() implies self@.regions.contains_key(
            self@.cache[k],
        ) && self@.regions[self@.cache[k]].kind == RegionType::Cache by {
            assert(m.contains_key(self.cached@[k]));
        }
    }

    /// The size of the allocation at `ptr`: the slot size if it is a slot
    /// of a chunk.
    fn size_of(&self, ptr: usize) -> (size: usize)
        requires
            self.wf(),
            ptr != 0,
            self@.find(ptr) is Some,
        ensures
            size == self@.find(ptr).unwrap().size,
    {
        proof {
            self.lemma_find(0, ptr);
        }
        let region_index = match self.table.region_find(ptr) {
            Some(index) => index,
            None => unreached(),
        };
        self.table.region_at_index(region_index).size
    }

    /// Serves a request for `size` bytes with the draws given, then moves
    /// the allocation at `ptr` to the new memory and frees it. Nothing
    /// grows in place, so that nothing freed next to the allocation comes
    /// into its reach. A null `ptr` makes this a plain request; a `ptr`
    /// that could not be freed is refused before anything is done.
    pub fn realloc_with(
        &mut self,
        ptr: usize,
        size: usize,
        zero_fill: bool,
        force_large: bool,
        mapped: Option<usize>,
        draws: Draws,
    ) -> (r: Result<AllocStep, Fault>)
        requires
            old(self).wf(),
        ensures
            final(self).wf(),
            final(self).spec_base() == old(self).spec_base(),
            final(self).spec_canary1() == old(self).spec_canary1(),
            old(self)@.realloc_outcome(
                final(self)@,
                r,
                ptr,
                size,
                zero_fill,
                force_large,
                mapped,
                draws,
            ),
    {
        let ghost before = *self;
        match self.dealloc_check(ptr) {
            Some(fault) => { return Err(fault); },
            None => {},
        }
        let served = match self.alloc_with(size, zero_fill, force_large, mapped, draws) {
            Err(fault) => { return Err(fault); },
            Ok(served) => served,
        };
        let (new, mut effects) = match served {
            AllocStep::NeedMap(request) => { return Ok(AllocStep::NeedMap(request)); },
            AllocStep::Done { ptr: new, effects } => (new, effects),
        };
        if ptr == 0 {
            return Ok(AllocStep::Done { ptr: new, effects });
        }
        proof {
            before.lemma_cache_sound();
            lemma_alloc_keeps(before@, ptr, size, zero_fill, force_large, mapped, draws);
            let page = if mapped is Some { mapped.unwrap() } else { 0 };
            lemma_noted(
                before@.alloc_state(size, force_large, page, draws),
                before@.alloc_noted(size, force_large),
                ptr,
            );
        }
        let ghost mid = *self;
        let ghost made = effects@;
        let prev_size = self.size_of(ptr);
        effects.push(
            Effect::Copy { src: ptr, dst: new, size: if size < prev_size { size } else { prev_size } },
        );
        let mut freed = match self.dealloc(ptr) {
            Ok(freed) => freed,
            Err(_) => unreached(),
        };
        proof {
            assert(made.push(
                Effect::Copy {
                    src: ptr,
                    dst: new,
                    size: if size < prev_size { size } else { prev_size },
                },
            ) + freed@ =~= made + mid@.moved_effects(ptr, new, size));
        }
        effects.append(&mut freed);
        Ok(AllocStep::Done { ptr: new, effects })
    }

    /// `realloc_with`, drawing which cached page to reuse, which chunk of
    /// the class to take the slot from, and where the search for a free
    /// slot starts.
    pub fn realloc(
        &mut self,
        ptr: usize,
        size: usize,
        zero_fill: bool,
        force_large: bool,
        mapped: Option<usize>,
    ) -> (r: Result<AllocStep, Fault>)
        requires
            old(self).wf(),
        ensures
            final(self).wf(),
            final(self).spec_base() == old(self).spec_base(),
            final(self).spec_canary1() == old(self).spec_canary1(),
            exists|draws: Draws|
                old(self)@.realloc_outcome(
                    final(self)@,
                    r,
                    ptr,
                    size,
                    zero_fill,
                    force_large,
                    mapped,
                    draws,
                ),
    {
        let draws = Draws {
            cache_head: utils::gen_range(0, 2) == 1,
            chunk_head: utils::gen_range(0, 2) == 1,
            slot: utils::gen_range(0, MAX_CHUNK_MAPPING * 8),
        };
        self.realloc_with(ptr, size, zero_fill, force_large, mapped, draws)
    }
}

impl Dir {
    /// Tears the directory down: every live mapping is to be released,
    /// one release for each, in no particular order.
    pub fn scavenge(self) -> (effects: Vec<Effect>)
        requires
            self.wf(),
        ensures
            effects@.len() == self@.used,
            forall|key: usize|
                #![trigger self@.regions[key]]
                self@.regions.contains_key(key) ==> effects@.contains(
                    teardown(self@.regions[key], self@.page_size),
                ),
            forall|k: int|
                #![trigger effects@[k]]
                0 <= k < effects@.len() ==> exists|key: usize|
                    self@.regions.contains_key(key) && effects@[k] == teardown(
                        #[trigger] self@.regions[key],
                        self@.page_size,
                    ),
    {
        proof {
            reveal(Dir::inv);
            self.table.lemma_wf();
            self.table.lemma_free_count();
        }
        let ghost ps = self.spec_page_size();
        let ghost slots = self.table.slots();
        let mut effects: Vec<Effect> = Vec::new();
        let page_size = self.table.page_size();
        let total = self.table.total();
        let canary_dir = self.canary2;
        let mut i: usize = 0;
        proof {
            assert(slots.take(0) =~= Seq::<Region>::empty());
        }
        while i < total
            invariant
                i <= total,
                total == slots.len(),
                slots == self.table.slots(),
                ps == self.spec_page_size(),
                page_size == ps,
                canary_dir == self.canary2,
                self.inv(0),
                effects@.len() == i - count_free(slots.take(i as int)),
                forall|j: int|
                    #![trigger slots[j]]
                    0 <= j < i && occupied(slots, j) ==> effects@.contains(
                        slots[j].release(true, ps),
                    ),
                forall|k: int|
                    #![trigger effects@[k]]
                    0 <= k < effects@.len() ==> exists|j: int|
                        0 <= j < i && occupied(slots, j) && effects@[k] == (#[trigger] slots[j]).release(
                            true,
                            ps,
                        ),
            decreases total - i,
        {
            let region = self.table.region_at_index(i);
            proof {
                lemma_count_free_take(slots, i as int);
            }
            let ghost before = effects@;
            if !region.is_free() && region.check_integrity(canary_dir) {
                let mut doomed = *region;
                let released = doomed.dealloc_data(true, page_size);
                effects.push(released);
                proof {
                    assert(effects@[before.len() as int] == slots[i as int].release(true, ps));
                    assert forall|j: int|
                        #![trigger slots[j]]
                        0 <= j < i + 1 && occupied(slots, j) implies effects@.contains(
                        slots[j].release(true, ps),
                    ) by {
                        if j < i {
                            let k = before.index_of(slots[j].release(true, ps));
                            assert(effects@[k] == before[k]);
                        }
                    }
                    assert forall|k: int|
                        #![trigger effects@[k]]
                        0 <= k < effects@.len() implies exists|j: int|
                        0 <= j < i + 1 && occupied(slots, j) && effects@[k] == (#[trigger] slots[j]).release(
                            true,
                            ps,
                        ) by {
                        if k < before.len() {
                            assert(effects@[k] == before[k]);
                            let j = choose|j: int|
                                0 <= j < i && occupied(slots, j) && before[k] == (#[trigger] slots[j]).release(
                                    true,
                                    ps,
                                );
                            assert(0 <= j < i + 1 && occupied(slots, j) && effects@[k]
                                == slots[j].release(true, ps));
                        } else {
                            assert(occupied(slots, i as int) && effects@[k] == slots[i as int].release(
                                true,
                                ps,
                            ));
                        }
                    }
                }
            } else {
                proof {
                    if occupied(slots, i as int) {
                        self.lemma_record(0, i);
                    }
                }
            }
            i += 1;
        }
        proof {
            assert(slots.take(total as int) =~= slots);
            assert forall|key: usize|
                #![trigger self@.regions[key]]
                self@.regions.contains_key(key) implies effects@.contains(
                teardown(self@.regions[key], self@.page_size),
            ) by {
                self.table.lemma_view(key);
                let j = self.table.spec_index(key);
                assert(occupied(slots, j));
                assert(slots[j].release(true, ps) == teardown(region_view(slots[j], ps), ps));
            }
            assert forall|k: int| #![trigger effects@[k]] 0 <= k < effects@.len() implies exists|
                key: usize,
            |
                self@.regions.contains_key(key) && effects@[k] == teardown(
                    #[trigger] self@.regions[key],
                    self@.page_size,
                ) by {
                let j = choose|j: int|
                    0 <= j < total && occupied(slots, j) && effects@[k] == (#[trigger] slots[j]).release(
                        true,
                        ps,
                    );
                self.table.lemma_slot(j);
                let key = self.table.key(slots[j].object);
                assert(self@.regions.contains_key(key));
                assert(self@.regions[key] == region_view(slots[j], ps));
                assert(slots[j].release(true, ps) == teardown(region_view(slots[j], ps), ps));
            }
        }
        effects
    }
}

impl Dir {
    /// A directory in order is in a sound state.
    pub proof fn lemma_sound(&self)
        requires
            self.wf(),
        ensures
            self@.sound(),
    {
        reveal(Dir::inv);
        reveal(DirView::sound);
        self.table.lemma_wf();
        self.table.lemma_used();
        self.lemma_cache_sound();
        let v = self@;
        let m = self.records();
        let ps = self.spec_page_size();
        assert(v.regions.dom() =~= m.dom());
        assert(list_inv(m, self.cached@, self.cache1, self.cache2));
        assert forall|i: int, k: int|
            #![trigger v.chunks[i][k]]
            0 <= i < MAX_CHUNK_SHIFT && 0 <= k < v.chunks[i].len() implies {
            &&& v.regions.contains_key(v.chunks[i][k])
            &&& v.regions[v.chunks[i][k]].kind == RegionType::Chunk
            &&& v.regions[v.chunks[i][k]].object == v.chunks[i][k]
            &&& spec_chunk_index(v.regions[v.chunks[i][k]].size) == i
        } by {
            assert(list_inv(m, self.lists@[i], self.chunks1@[i], self.chunks2@[i]));
            assert(m.contains_key(self.lists@[i][k]));
        }
        assert forall|key: usize| #[trigger] v.regions.contains_key(key) implies v.region_sound(
            key,
        ) by {
            let r = m[key];
            assert(m.contains_key(key));
            self.table.lemma_view(key);
            assert(record_inv(r, key, self.canary2, ps));
            assert(listed_inv(r, self.lists@, self.cached@, ps));
            assert(v.regions[key] == region_view(r, ps));
            if r.kind == RegionType::Chunk && r.size != 0 {
                lemma_free_set(r, ps);
            }
        }
    }
}

impl Dir {
    /// Counts the slots of the region table by what they hold.
    pub fn census(&self) -> (census: Census)
        requires
            self.wf(),
        ensures
            census.free == count_kind(self.spec_table().slots(), RegionType::Free),
            census.chunks == count_kind(self.spec_table().slots(), RegionType::Chunk),
            census.larges == count_kind(self.spec_table().slots(), RegionType::Large),
            census.cached == count_kind(self.spec_table().slots(), RegionType::Cache),
            census.free + census.chunks + census.larges + census.cached == self@.total,
    {
        let ghost slots = self.table.slots();
        let total = self.table.total();
        let mut census = Census { free: 0, chunks: 0, larges: 0, cached: 0 };
        let mut i: usize = 0;
        proof {
            assert(slots.take(0) =~= Seq::<Region>::empty());
        }
        while i < total
            invariant
                i <= total,
                total == slots.len(),
                slots == self.table.slots(),
                census.free == count_kind(slots.take(i as int), RegionType::Free),
                census.chunks == count_kind(slots.take(i as int), RegionType::Chunk),
                census.larges == count_kind(slots.take(i as int), RegionType::Large),
                census.cached == count_kind(slots.take(i as int), RegionType::Cache),
                census.free + census.chunks + census.larges + census.cached == i,
            decreases total - i,
        {
            proof {
                assert(slots.take(i + 1).drop_last() =~= slots.take(i as int));
                assert(slots.take(i + 1).last() == slots[i as int]);
            }
            match self.table.region_at_index(i).kind {
                RegionType::Free => {
                    census.free = census.free + 1;
                },
                RegionType::Chunk => {
                    census.chunks = census.chunks + 1;
                },
                RegionType::Large => {
                    census.larges = census.larges + 1;
                },
                RegionType::Cache => {
                    census.cached = census.cached + 1;
                },
            }
            i += 1;
        }
        proof {
            assert(slots.take(total as int) =~= slots);
            reveal(Dir::inv);
        }
        census
    }

    /// Number of chunks in the list of class `index`: the chunks of the
    /// class that have a free slot.
    pub fn free_chunks(&self, index: usize) -> (len: usize)
        requires
            self.wf(),
            index < MAX_CHUNK_SHIFT,
        ensures
            len == self@.chunks[index as int].len(),
    {
        proof {
            reveal(Dir::inv);
            self.table.lemma_wf();
        }
        let ghost order = self.lists@[index as int];
        let ghost m = self.records();
        let total = self.table.total();
        let mut len: usize = 0;
        let mut object = self.chunks1[index];
        proof {
            assert(list_inv(m, order, self.chunks1@[index as int], self.chunks2@[index as int]));
            self.table.lemma_used();
            order.unique_seq_to_set();
            assert(order.to_set().subset_of(m.dom())) by {
                assert forall|o: usize| order.to_set().contains(o) implies m.dom().contains(o) by {
                    let k = order.index_of(o);
                    assert(order[k] == o);
                }
            }
            vstd::set_lib::lemma_len_subset(order.to_set(), m.dom());
        }
        let ghost head = self.chunks1@[index as int];
        let ghost tail = self.chunks2@[index as int];
        while object != 0
            invariant
                self.spec_table().wf(),
                m == self.records(),
                order.len() <= total,
                len <= order.len(),
                list_inv(m, order, head, tail),
                object == if len == order.len() { 0 } else { order[len as int] },
            decreases order.len() - len,
        {
            proof {
                lemma_list_member(m, order, head, tail, len as int);
                self.table.lemma_view(object);
            }
            let region_index = match self.table.region_find(object) {
                Some(found) => found,
                None => unreached(),
            };
            object = self.table.region_at_index(region_index).next;
            len = len + 1;
        }
        len
    }
}

} // verus!
