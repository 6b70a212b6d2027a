//! The statistics a directory can keep of what it is asked to do.
use vstd::prelude::*;
use crate::mmap::Prot;
use crate::region::MAX_CHUNK_SHIFT;

verus! {

/// Whether a directory made by `Dir::init` keeps statistics.
pub const USE_STATS: bool = false;

/// Counters of the requests a directory has served. A counter that reaches
/// the largest number of the machine word stays there.
#[derive(Clone, Copy, Debug, PartialEq, Eq)]
pub struct Stats {
    /// Large objects allocated.
    pub larges: usize,
    /// Bytes of the large objects allocated.
    pub larges_bytes: usize,
    /// Slots allocated, empty requests among them.
    pub chunks: usize,
    /// Slots allocated, by the list index of their class.
    pub chunks_classes: [usize; 16],
    /// Slots given back, frees of the address of empty requests among them.
    pub chunks_dealloc: usize,
    /// Chunk pages that went to the cache.
    pub cached: usize,
    /// Chunk pages that came back from the cache.
    pub reused: usize,
    /// Large objects that were allocated as keys.
    pub keys: usize,
    /// Changes of protection to read-only.
    pub prot_reads: usize,
    /// Changes of protection to write-only.
    pub prot_writes: usize,
    /// Changes of protection to no access.
    pub prot_nones: usize,
}

/// The counters as contracts see them.
pub struct StatsView {
    pub larges: usize,
    pub larges_bytes: usize,
    pub chunks: usize,
    pub chunks_classes: Seq<usize>,
    pub chunks_dealloc: usize,
    pub cached: usize,
    pub reused: usize,
    pub keys: usize,
    pub prot_reads: usize,
    pub prot_writes: usize,
    pub prot_nones: usize,
}

impl View for Stats {
    type V = StatsView;

    open spec fn view(&self) -> StatsView {
        StatsView {
            larges: self.larges,
            larges_bytes: self.larges_bytes,
            chunks: self.chunks,
            chunks_classes: self.chunks_classes@,
            chunks_dealloc: self.chunks_dealloc,
            cached: self.cached,
            reused: self.reused,
            keys: self.keys,
            prot_reads: self.prot_reads,
            prot_writes: self.prot_writes,
            prot_nones: self.prot_nones,
        }
    }
}

/// `n` and `by` added up, or the largest number of the machine word if
/// that is less.
pub open spec fn bump(n: usize, by: usize) -> usize {
    if n + by > usize::MAX {
        usize::MAX
    } else {
        (n + by) as usize
    }
}

/// The counters of a directory that has served nothing.
pub open spec fn no_stats() -> StatsView {
    StatsView {
        larges: 0,
        larges_bytes: 0,
        chunks: 0,
        chunks_classes: Seq::new(MAX_CHUNK_SHIFT as nat, |i: int| 0usize),
        chunks_dealloc: 0,
        cached: 0,
        reused: 0,
        keys: 0,
        prot_reads: 0,
        prot_writes: 0,
        prot_nones: 0,
    }
}

impl StatsView {
    /// The counters after a large object of `size` bytes has been
    /// allocated, as a key or not.
    pub open spec fn large(self, size: usize, key: bool) -> StatsView {
        StatsView {
            larges: bump(self.larges, 1),
            larges_bytes: bump(self.larges_bytes, size),
            keys: if key { bump(self.keys, 1) } else { self.keys },
            ..self
        }
    }

    /// The counters after a slot of the class with the list index `index`
    /// has been allocated, from a page that came back from the cache for
    /// it or not. Empty requests, of index 0, are not counted by class.
    pub open spec fn small(self, index: int, reused: bool) -> StatsView {
        StatsView {
            chunks: bump(self.chunks, 1),
            reused: if reused { bump(self.reused, 1) } else { self.reused },
            chunks_classes: if 0 < index < self.chunks_classes.len() {
                self.chunks_classes.update(index, bump(self.chunks_classes[index], 1))
            } else {
                self.chunks_classes
            },
            ..self
        }
    }

    /// The counters after a slot has been given back, its page going to
    /// the cache or not.
    pub open spec fn freed(self, cached: bool) -> StatsView {
        StatsView {
            chunks_dealloc: bump(self.chunks_dealloc, 1),
            cached: if cached { bump(self.cached, 1) } else { self.cached },
            ..self
        }
    }

    /// The counters after a change of protection to `prot`.
    pub open spec fn protected(self, prot: Prot) -> StatsView {
        match prot {
            Prot::Read => StatsView { prot_reads: bump(self.prot_reads, 1), ..self },
            Prot::Write => StatsView { prot_writes: bump(self.prot_writes, 1), ..self },
            Prot::NoAccess => StatsView { prot_nones: bump(self.prot_nones, 1), ..self },
            Prot::ReadWrite => self,
        }
    }
}

impl Stats {
    /// Counters at zero.
    pub fn new() -> (stats: Stats)
        ensures
            stats@ == no_stats(),
    {
        let stats = Stats {
            larges: 0,
            larges_bytes: 0,
            chunks: 0,
            chunks_classes: [0usize; 16],
            chunks_dealloc: 0,
            cached: 0,
            reused: 0,
            keys: 0,
            prot_reads: 0,
            prot_writes: 0,
            prot_nones: 0,
        };
        assert(stats@.chunks_classes =~= no_stats().chunks_classes);
        stats
    }

    /// Counts a large object of `size` bytes, allocated as a key or not.
    pub fn note_large(&mut self, size: usize, key: bool)
        ensures
            final(self)@ == old(self)@.large(size, key),
    {
        self.larges = self.larges.saturating_add(1);
        self.larges_bytes = self.larges_bytes.saturating_add(size);
        if key {
            self.keys = self.keys.saturating_add(1);
        }
    }

    /// Counts a slot of the class with the list index `index`, from a
    /// page that came back from the cache for it or not.
    pub fn note_small(&mut self, index: usize, reused: bool)
        ensures
            final(self)@ == old(self)@.small(index as int, reused),
    {
        self.chunks = self.chunks.saturating_add(1);
        if reused {
            self.reused = self.reused.saturating_add(1);
        }
        if 0 < index && index < 16 {
            let count = self.chunks_classes[index].saturating_add(1);
            self.chunks_classes[index] = count;
        }
        assert(self@.chunks_classes =~= old(self)@.small(index as int, reused).chunks_classes);
    }

    /// Counts a slot given back, its page going to the cache or not.
    pub fn note_freed(&mut self, cached: bool)
        ensures
            final(self)@ == old(self)@.freed(cached),
    {
        self.chunks_dealloc = self.chunks_dealloc.saturating_add(1);
        if cached {
            self.cached = self.cached.saturating_add(1);
        }
    }

    /// Counts a change of protection to `prot`.
    pub fn note_protect(&mut self, prot: Prot)
        ensures
            final(self)@ == old(self)@.protected(prot),
    {
        match prot {
            Prot::Read => {
                self.prot_reads = self.prot_reads.saturating_add(1);
            },
            Prot::Write => {
                self.prot_writes = self.prot_writes.saturating_add(1);
            },
            Prot::NoAccess => {
                self.prot_nones = self.prot_nones.saturating_add(1);
            },
            Prot::ReadWrite => {},
        }
    }
}

} // verus!
