//! Size classes and the record kept for every live mapping.
use vstd::prelude::*;
use crate::fault::Fault;
use crate::mmap::{valid_page_size, Prot};

verus! {

/// Smallest slot a chunk is ever cut into.
pub const MIN_CHUNK_SIZE: usize = 16;

/// Number of size classes the directory keeps lists for: class `i` holds the
/// chunks with slots of `2^i` bytes, class 0 the page behind empty
/// allocations.
pub const MAX_CHUNK_SHIFT: usize = 16;

/// Bytes in a chunk's slot bitmap; a chunk has at most eight times as many
/// slots.
pub const MAX_CHUNK_MAPPING: usize = 16;

/// Whether fresh and released memory is overwritten with the junk bytes
/// rather than left alone or zeroed.
pub const USE_JUNK: bool = true;

/// The byte fresh memory is filled with.
pub const ALLOC_JUNK: u8 = 0xd0;

/// The byte released memory is filled with.
pub const FREE_JUNK: u8 = 0xdf;

/// Something the driver has to do to the pages of the heap. The directory
/// decides; the driver carries out, in the order given.
#[derive(Clone, Copy, Debug, PartialEq, Eq)]
pub enum Effect {
    /// Give the pages of the `size` bytes at `ptr` the protection `prot`.
    Protect { ptr: usize, size: usize, prot: Prot },
    /// Overwrite `size` bytes at `ptr` with `byte`.
    Fill { ptr: usize, size: usize, byte: u8 },
    /// Copy `size` bytes from `src` to `dst`; the two do not overlap.
    Copy { src: usize, dst: usize, size: usize },
    /// Release the mapping of `size` bytes at `ptr`, overwriting it with
    /// `fill` first if that is set.
    Unmap { ptr: usize, size: usize, fill: Option<u8> },
}

/// The base-two logarithm of a valid page size.
pub open spec fn spec_page_shift(page_size: usize) -> usize {
    if page_size == 4096 {
        12
    } else if page_size == 8192 {
        13
    } else if page_size == 16384 {
        14
    } else if page_size == 32768 {
        15
    } else {
        16
    }
}

/// The base-two logarithm of the page size.
pub fn page_shift(page_size: usize) -> (shift: usize)
    requires
        valid_page_size(page_size),
    ensures
        shift == spec_page_shift(page_size),
{
    let mut shift: usize = 12;
    let mut p: usize = 4096;
    while p < page_size
        invariant
            valid_page_size(page_size),
            valid_page_size(p),
            p <= page_size,
            shift == spec_page_shift(p),
        decreases page_size - p,
    {
        p = p * 2;
        shift = shift + 1;
    }
    shift
}

/// The index of the class of the largest slots.
pub fn max_chunk_shift(page_size: usize) -> (shift: usize)
    requires
        valid_page_size(page_size),
    ensures
        shift == spec_page_shift(page_size) - 1,
{
    page_shift(page_size) - 1
}

/// The largest slot: half a page. Anything larger gets a mapping of its own.
pub fn max_chunk_size(page_size: usize) -> (size: usize)
    requires
        valid_page_size(page_size),
    ensures
        size == page_size / 2,
{
    let shift = max_chunk_shift(page_size);
    assert(1usize << 11 == 2048) by (bit_vector);
    assert(1usize << 12 == 4096) by (bit_vector);
    assert(1usize << 13 == 8192) by (bit_vector);
    assert(1usize << 14 == 16384) by (bit_vector);
    assert(1usize << 15 == 32768) by (bit_vector);
    1usize << shift
}

/// The smallest slot size of a page.
pub open spec fn spec_min_chunk_size(page_size: usize) -> usize {
    if page_size / 128 > MIN_CHUNK_SIZE {
        page_size / 128
    } else {
        MIN_CHUNK_SIZE
    }
}

/// The smallest slot: as small as the bitmap can still map a page of, and no
/// smaller than `MIN_CHUNK_SIZE`.
pub fn min_chunk_size(page_size: usize) -> (size: usize)
    requires
        valid_page_size(page_size),
    ensures
        size == spec_min_chunk_size(page_size),
        size == page_size / 128,
{
    let by_mapping = page_size / (MAX_CHUNK_MAPPING * 8);
    if by_mapping > MIN_CHUNK_SIZE {
        by_mapping
    } else {
        MIN_CHUNK_SIZE
    }
}

/// The slot sizes of a page: the powers of two from a 128th of it to half of
/// it.
pub open spec fn is_class_size(size: usize, page_size: usize) -> bool {
    size * 2 == page_size || size * 4 == page_size || size * 8 == page_size || size * 16
        == page_size || size * 32 == page_size || size * 64 == page_size || size * 128
        == page_size
}

/// Number of slots of `chunk_size` bytes in a page.
pub open spec fn spec_max_slot_index(chunk_size: usize, page_size: usize) -> int {
    page_size as int / chunk_size as int
}

/// Number of slots of `chunk_size` bytes in a page.
pub fn max_slot_index(chunk_size: usize, page_size: usize) -> (slots: usize)
    requires
        chunk_size > 0,
    ensures
        slots == spec_max_slot_index(chunk_size, page_size),
{
    page_size / chunk_size
}

/// What a class size and its slot count have to do with each other.
pub proof fn lemma_class_size(size: usize, page_size: usize)
    requires
        valid_page_size(page_size),
        is_class_size(size, page_size),
    ensures
        spec_max_slot_index(size, page_size) * size == page_size,
        page_size * 2 == size * 4 ==> spec_max_slot_index(size, page_size) == 2,
        size * 2 == page_size <==> spec_max_slot_index(size, page_size) == 2,
        size * 4 == page_size <==> spec_max_slot_index(size, page_size) == 4,
        size * 8 == page_size <==> spec_max_slot_index(size, page_size) == 8,
        size * 16 == page_size <==> spec_max_slot_index(size, page_size) == 16,
        size * 32 == page_size <==> spec_max_slot_index(size, page_size) == 32,
        size * 64 == page_size <==> spec_max_slot_index(size, page_size) == 64,
        size * 128 == page_size <==> spec_max_slot_index(size, page_size) == 128,
        2 <= spec_max_slot_index(size, page_size) <= 128,
        32 <= size <= page_size / 2,
        spec_min_chunk_size(page_size) <= size,
{
    let s = size as int;
    let p = page_size as int;
    if s * 2 == p {
        lemma_div_exact(p, s, 2);
    } else if s * 4 == p {
        lemma_div_exact(p, s, 4);
    } else if s * 8 == p {
        lemma_div_exact(p, s, 8);
    } else if s * 16 == p {
        lemma_div_exact(p, s, 16);
    } else if s * 32 == p {
        lemma_div_exact(p, s, 32);
    } else if s * 64 == p {
        lemma_div_exact(p, s, 64);
    } else {
        lemma_div_exact(p, s, 128);
    }
}

/// A product divided by one factor is the other.
pub proof fn lemma_div_exact(p: int, s: int, k: int)
    by (nonlinear_arith)
    requires
        s > 0,
        s * k == p,
    ensures
        p / s == k,
        p % s == 0,
        (p / s) * s == p,
{
}

/// The class a request of `size` bytes falls into: none for an empty
/// request, else the smallest slot size that holds it.
pub open spec fn spec_chunk_size(size: usize, page_size: usize) -> usize {
    if size == 0 {
        0
    } else if size <= page_size / 128 {
        page_size / 128
    } else if size <= page_size / 64 {
        page_size / 64
    } else if size <= page_size / 32 {
        page_size / 32
    } else if size <= page_size / 16 {
        page_size / 16
    } else if size <= page_size / 8 {
        page_size / 8
    } else if size <= page_size / 4 {
        page_size / 4
    } else {
        page_size / 2
    }
}

/// The class a request of `size` bytes, at most half a page, falls into.
pub fn chunk_size(size: usize, page_size: usize) -> (class: usize)
    requires
        valid_page_size(page_size),
        size <= page_size / 2,
    ensures
        class == spec_chunk_size(size, page_size),
        class == 0 <==> size == 0,
        class != 0 ==> is_class_size(class, page_size) && class >= size,
{
    if size == 0 {
        return 0;
    }
    let mut class = min_chunk_size(page_size);
    while class < size
        invariant
            valid_page_size(page_size),
            0 < size <= page_size / 2,
            is_class_size(class, page_size),
            class == page_size / 128 || class / 2 < size,
        decreases page_size - class,
    {
        class = class * 2;
    }
    class
}

/// The slot sizes of all page sizes: the powers of two from 32 to 32768.
pub open spec fn is_chunk_class(chunk_size: usize) -> bool {
    chunk_size == 32 || chunk_size == 64 || chunk_size == 128 || chunk_size == 256 || chunk_size
        == 512 || chunk_size == 1024 || chunk_size == 2048 || chunk_size == 4096 || chunk_size
        == 8192 || chunk_size == 16384 || chunk_size == 32768
}

/// The list a class is kept in: zero for the empty class, else the
/// base-two logarithm of the slot size.
pub open spec fn spec_chunk_index(chunk_size: usize) -> usize {
    if chunk_size == 0 {
        0
    } else if chunk_size == 32 {
        5
    } else if chunk_size == 64 {
        6
    } else if chunk_size == 128 {
        7
    } else if chunk_size == 256 {
        8
    } else if chunk_size == 512 {
        9
    } else if chunk_size == 1024 {
        10
    } else if chunk_size == 2048 {
        11
    } else if chunk_size == 4096 {
        12
    } else if chunk_size == 8192 {
        13
    } else if chunk_size == 16384 {
        14
    } else {
        15
    }
}

/// The list the class of slots of `chunk_size` bytes is kept in.
pub fn chunk_index(chunk_size: usize) -> (index: usize)
    requires
        chunk_size == 0 || is_chunk_class(chunk_size),
    ensures
        index == spec_chunk_index(chunk_size),
        index < MAX_CHUNK_SHIFT,
        index == 0 <==> chunk_size == 0,
{
    if chunk_size == 0 {
        return 0;
    }
    let mut index: usize = 5;
    let mut p: usize = 32;
    while p < chunk_size
        invariant
            is_chunk_class(chunk_size),
            is_chunk_class(p),
            p <= chunk_size,
            index == spec_chunk_index(p),
        decreases chunk_size - p,
    {
        p = p * 2;
        index = index + 1;
    }
    index
}

/// Every class size of a valid page is one of the slot sizes.
pub proof fn lemma_class_is_chunk_class(size: usize, page_size: usize)
    requires
        valid_page_size(page_size),
        is_class_size(size, page_size),
    ensures
        is_chunk_class(size),
        0 < spec_chunk_index(size) < MAX_CHUNK_SHIFT,
{
}

/// The byte a fresh allocation is filled with: zero if asked for, else the
/// junk byte.
pub open spec fn spec_fill_byte_alloc(zero_fill: bool) -> Option<u8> {
    if zero_fill {
        Some(0u8)
    } else if USE_JUNK {
        Some(ALLOC_JUNK)
    } else {
        None
    }
}

/// The byte a fresh allocation is filled with, if any.
pub fn fill_byte_alloc(zero_fill: bool) -> (fill: Option<u8>)
    ensures
        fill == spec_fill_byte_alloc(zero_fill),
{
    if zero_fill {
        Some(0)
    } else if USE_JUNK {
        Some(ALLOC_JUNK)
    } else {
        None
    }
}

/// The byte released memory is overwritten with.
pub open spec fn spec_fill_byte_dealloc() -> Option<u8> {
    if USE_JUNK {
        Some(FREE_JUNK)
    } else {
        Some(0u8)
    }
}

/// The byte released memory is overwritten with: never left as it was.
pub fn fill_byte_dealloc() -> (fill: Option<u8>)
    ensures
        fill == spec_fill_byte_dealloc(),
        fill is Some,
{
    if USE_JUNK {
        Some(FREE_JUNK)
    } else {
        Some(0)
    }
}

/// What a slot of the region table holds.
#[derive(Clone, Copy, Debug, PartialEq, Eq, Structural)]
pub enum RegionType {
    /// Nothing: the slot is unused.
    Free,
    /// A page cut into slots of one size.
    Chunk,
    /// A mapping of its own: an object above half a page, or a key.
    Large,
    /// An emptied chunk page kept for the next chunk that is needed.
    Cache,
}

/// The record of one live mapping.
#[derive(Clone, Copy, Debug)]
pub struct Region {
    /// Address the mapping was handed out at; null in an unused record.
    pub object: usize,
    /// The directory's canary combined with `object`.
    pub canary: usize,
    /// Slot size of a chunk, byte size of a large object, zero for the
    /// page of empty allocations and for a cached page.
    pub size: usize,
    pub kind: RegionType,
    /// Of a chunk: one bit per slot, set while the slot is free.
    pub mapping: [u8; 16],
    /// Of a listed chunk or cached page: the next one in its list.
    pub next: usize,
    /// Of a listed chunk or cached page: the one before it in its list.
    pub prev: usize,
}

/// Bit `k` of `byte`.
pub open spec fn bit(byte: u8, k: int) -> bool {
    byte & (1u8 << (k as u8)) != 0
}

proof fn lemma_bit_ones(k: u8)
    by (bit_vector)
    requires
        k < 8,
    ensures
        0xffu8 & (1u8 << k) != 0,
        0u8 & (1u8 << k) == 0,
{
}

proof fn lemma_bit_or(b: u8, i: u8, j: u8)
    by (bit_vector)
    requires
        i < 8,
        j < 8,
    ensures
        ((b | (1u8 << i)) & (1u8 << j) != 0) == (j == i || (b & (1u8 << j) != 0)),
{
}

proof fn lemma_bit_xor(b: u8, i: u8, j: u8)
    by (bit_vector)
    requires
        i < 8,
        j < 8,
    ensures
        ((b ^ (1u8 << i)) & (1u8 << j) != 0) == ((j == i) != (b & (1u8 << j) != 0)),
{
}

proof fn lemma_byte_all(b: u8)
    by (bit_vector)
    requires
        b & (1u8 << 0u8) != 0,
        b & (1u8 << 1u8) != 0,
        b & (1u8 << 2u8) != 0,
        b & (1u8 << 3u8) != 0,
        b & (1u8 << 4u8) != 0,
        b & (1u8 << 5u8) != 0,
        b & (1u8 << 6u8) != 0,
        b & (1u8 << 7u8) != 0,
    ensures
        b == 0xffu8,
{
}

proof fn lemma_byte_none(b: u8)
    by (bit_vector)
    requires
        b & (1u8 << 0u8) == 0,
        b & (1u8 << 1u8) == 0,
        b & (1u8 << 2u8) == 0,
        b & (1u8 << 3u8) == 0,
        b & (1u8 << 4u8) == 0,
        b & (1u8 << 5u8) == 0,
        b & (1u8 << 6u8) == 0,
        b & (1u8 << 7u8) == 0,
    ensures
        b == 0u8,
{
}

/// A byte is `0xff` exactly if all its bits are set, `0` exactly if none is.
pub proof fn lemma_byte_bits(b: u8)
    ensures
        b == 0xffu8 <==> (forall|k: int| 0 <= k < 8 ==> bit(b, k)),
        b == 0u8 <==> (forall|k: int| 0 <= k < 8 ==> !bit(b, k)),
{
    assert forall|k: int| 0 <= k < 8 implies bit(0xffu8, k) && !bit(0u8, k) by {
        lemma_bit_ones(k as u8);
    }
    if forall|k: int| 0 <= k < 8 ==> bit(b, k) {
        assert(bit(b, 0) && bit(b, 1) && bit(b, 2) && bit(b, 3) && bit(b, 4) && bit(b, 5) && bit(
            b,
            6,
        ) && bit(b, 7));
        lemma_byte_all(b);
    }
    if forall|k: int| 0 <= k < 8 ==> !bit(b, k) {
        assert(!bit(b, 0) && !bit(b, 1) && !bit(b, 2) && !bit(b, 3) && !bit(b, 4) && !bit(b, 5)
            && !bit(b, 6) && !bit(b, 7));
        lemma_byte_none(b);
    }
}

/// Setting or flipping bit `i` leaves every other bit as it was.
pub proof fn lemma_bit_update(b: u8, i: int)
    requires
        0 <= i < 8,
    ensures
        forall|j: int| 0 <= j < 8 ==> #[trigger] bit(b | (1u8 << (i as u8)), j) == (j == i || bit(b, j)),
        forall|j: int| 0 <= j < 8 ==> #[trigger] bit(b ^ (1u8 << (i as u8)), j) == ((j == i) != bit(b, j)),
{
    assert forall|j: int| 0 <= j < 8 implies #[trigger] bit(b | (1u8 << (i as u8)), j) == (j == i
        || bit(b, j)) by {
        lemma_bit_or(b, i as u8, j as u8);
    }
    assert forall|j: int| 0 <= j < 8 implies #[trigger] bit(b ^ (1u8 << (i as u8)), j) == ((j
        == i) != bit(b, j)) by {
        lemma_bit_xor(b, i as u8, j as u8);
    }
}

/// Number of steps down from slot `start` to slot `j` among `n` slots, going
/// from slot 0 to the last.
pub open spec fn steps_back(start: int, j: int, n: int) -> int {
    if j <= start {
        start - j
    } else {
        start + n - j
    }
}

/// An offset into a page that is a multiple of the slot size names a slot.
pub proof fn lemma_slot_of_offset(offset: usize, size: usize, page_size: usize)
    requires
        valid_page_size(page_size),
        is_class_size(size, page_size),
        offset < page_size,
        (offset as int) % (size as int) == 0,
    ensures
        0 <= (offset as int) / (size as int),
        (offset as int) / (size as int) < spec_max_slot_index(size, page_size),
        ((offset as int) / (size as int)) * size == offset,
{
    lemma_class_size(size, page_size);
    let slots = spec_max_slot_index(size, page_size);
    let q = (offset as int) / (size as int);
    let s = size as int;
    let o = offset as int;
    assert(q * s == o && 0 <= q < slots) by (nonlinear_arith)
        requires
            q == o / s,
            o % s == 0,
            s > 0,
            0 <= o < slots * s,
    ;
}

/// A slot starts inside the page, at a multiple of the slot size.
pub proof fn lemma_offset_of_slot(slot: int, size: usize, page_size: usize)
    requires
        valid_page_size(page_size),
        is_class_size(size, page_size),
        0 <= slot < spec_max_slot_index(size, page_size),
    ensures
        0 <= slot * size < page_size,
        slot * size + size <= page_size,
        (slot * size) % (size as int) == 0,
        (slot * size) / (size as int) == slot,
{
    lemma_class_size(size, page_size);
    let slots = spec_max_slot_index(size, page_size);
    let s = size as int;
    assert(0 <= slot * s && slot * s + s <= slots * s && (slot * s) % s == 0 && (slot * s) / s
        == slot) by (nonlinear_arith)
        requires
            0 <= slot < slots,
            s > 0,
    ;
}

/// Whether bit `k` of the bitmap `mapping` is set.
pub open spec fn mapped(mapping: Seq<u8>, k: int) -> bool {
    bit(mapping[k / 8], k % 8)
}

impl Region {
    /// Whether slot `k` is free. Meaningful for chunks only.
    pub open spec fn slot_free(self, k: int) -> bool {
        mapped(self.mapping@, k)
    }

    /// Number of slots of a chunk with slots of `self.size` bytes.
    pub open spec fn slots(self, page_size: usize) -> int {
        spec_max_slot_index(self.size, page_size)
    }

    /// The bitmap of a chunk maps the slots of its class and nothing beyond.
    pub open spec fn wf_chunk(self, page_size: usize) -> bool {
        &&& is_class_size(self.size, page_size)
        &&& forall|k: int| self.slots(page_size) <= k < 128 ==> !self.slot_free(k)
    }

    /// No slot is free.
    pub open spec fn spec_full(self, page_size: usize) -> bool {
        forall|k: int| 0 <= k < self.slots(page_size) ==> !self.slot_free(k)
    }

    /// Every slot is free.
    pub open spec fn spec_empty(self, page_size: usize) -> bool {
        forall|k: int| 0 <= k < self.slots(page_size) ==> self.slot_free(k)
    }

    /// `self` with the bitmap of a fresh chunk of its class and no
    /// neighbours; unchanged if it has no class.
    pub open spec fn fresh_chunk(self, fresh: Region, page_size: usize) -> bool {
        &&& fresh.object == self.object
        &&& fresh.canary == self.canary
        &&& fresh.size == self.size
        &&& fresh.kind == self.kind
        &&& if self.size == 0 {
            fresh == self
        } else {
            &&& fresh.next == 0
            &&& fresh.prev == 0
            &&& forall|k: int| 0 <= k < 128 ==> fresh.slot_free(k) == (k < self.slots(page_size))
        }
    }

    /// An unused record.
    pub fn vacant() -> (region: Region)
        ensures
            region.object == 0,
            region.canary == 0,
            region.size == 0,
            region.kind == RegionType::Free,
            region.next == 0,
            region.prev == 0,
            forall|k: int| 0 <= k < 128 ==> !region.slot_free(k),
    {
        let region = Region {
            object: 0,
            canary: 0,
            size: 0,
            kind: RegionType::Free,
            mapping: [0u8; 16],
            next: 0,
            prev: 0,
        };
        proof {
            assert forall|k: int| 0 <= k < 128 implies !region.slot_free(k) by {
                lemma_byte_bits(region.mapping@[k / 8]);
            }
        }
        region
    }

    /// Makes `self` the record of the mapping at `object`: a chunk of slots
    /// of `size` bytes, all free, or a large object of `size` bytes.
    pub fn init(&mut self, object: usize, size: usize, chunk: bool, canary_dir: usize, page_size: usize)
        requires
            object != 0,
            valid_page_size(page_size),
            chunk ==> size == 0 || is_class_size(size, page_size),
        ensures
            final(self).object == object,
            final(self).canary == canary_dir ^ object,
            final(self).size == size,
            final(self).kind == if chunk { RegionType::Chunk } else { RegionType::Large },
            !chunk || size == 0 ==> final(self).mapping == old(self).mapping && final(self).next
                == old(self).next && final(self).prev == old(self).prev,
            chunk && size != 0 ==> final(self).next == 0 && final(self).prev == 0 && final(self).wf_chunk(page_size) && final(self).spec_empty(page_size) && forall|k: int|
                0 <= k < 128 ==> final(self).slot_free(k) == (k < final(self).slots(page_size)),
    {
        self.object = object;
        self.canary = canary_dir ^ object;
        self.kind = if chunk { RegionType::Chunk } else { RegionType::Large };
        self.size = size;
        if chunk {
            self.init_chunk(page_size);
        }
    }

    /// Marks every slot of the class free and forgets the neighbours. A
    /// record without a class is left alone.
    pub fn init_chunk(&mut self, page_size: usize)
        requires
            valid_page_size(page_size),
            old(self).size == 0 || is_class_size(old(self).size, page_size),
        ensures
            old(self).fresh_chunk(*final(self), page_size),
            old(self).size != 0 ==> final(self).wf_chunk(page_size) && final(self).spec_empty(
                page_size,
            ),
    {
        if self.size == 0 {
            return ;
        }
        let max_index = max_slot_index(self.size, page_size);
        proof {
            lemma_class_size(self.size, page_size);
        }
        let whole: usize = max_index / 8;
        let rest: usize = max_index % 8;
        let mut i: usize = 0;
        while i < whole
            invariant
                i <= whole <= 16,
                self.object == old(self).object,
                self.canary == old(self).canary,
                self.size == old(self).size,
                self.kind == old(self).kind,
                forall|j: int| 0 <= j < i ==> self.mapping@[j] == 0xffu8,
            decreases whole - i,
        {
            self.mapping[i] = 0xff;
            i += 1;
        }
        let mut cleared: usize = whole;
        if rest != 0 {
            let mut low: u8 = 0;
            let mut b: usize = 0;
            proof {
                lemma_byte_bits(low);
            }
            while b < rest
                invariant
                    b <= rest < 8,
                    forall|j: int| 0 <= j < 8 ==> bit(low, j) == (j < b),
                decreases rest - b,
            {
                proof {
                    lemma_bit_update(low, b as int);
                }
                low |= 1u8 << (b as u8);
                b += 1;
            }
            self.mapping[whole] = low;
            cleared = whole + 1;
        }
        let first: usize = cleared;
        while cleared < 16
            invariant
                first <= cleared <= 16,
                self.object == old(self).object,
                self.canary == old(self).canary,
                self.size == old(self).size,
                self.kind == old(self).kind,
                forall|j: int| 0 <= j < whole ==> self.mapping@[j] == 0xffu8,
                rest != 0 ==> first == whole + 1 && forall|j: int|
                    0 <= j < 8 ==> bit(self.mapping@[whole as int], j) == (j < rest),
                rest == 0 ==> first == whole,
                forall|j: int| first <= j < cleared ==> self.mapping@[j] == 0u8,
            decreases 16 - cleared,
        {
            self.mapping[cleared] = 0;
            cleared += 1;
        }
        self.next = 0;
        self.prev = 0;
        proof {
            assert forall|k: int| 0 <= k < 128 implies self.slot_free(k) == (k < max_index) by {
                lemma_byte_bits(self.mapping@[k / 8]);
            }
        }
    }

    /// Whether the record is intact: in use, and its canary the directory's
    /// combined with its address.
    pub fn check_integrity(&self, canary_dir: usize) -> (ok: bool)
        ensures
            ok == (self.kind != RegionType::Free && self.canary == canary_dir ^ self.object),
    {
        !self.is_free() && self.canary == canary_dir ^ self.object
    }

    /// Retires an emptied chunk to the cache. Its page is to lose all access.
    pub fn set_as_cache(&mut self, page_size: usize) -> (effect: Effect)
        requires
            old(self).kind == RegionType::Chunk,
        ensures
            *final(self) == (Region { kind: RegionType::Cache, size: 0, ..*old(self) }),
            effect == (Effect::Protect {
                ptr: old(self).object,
                size: page_size,
                prot: Prot::NoAccess,
            }),
    {
        self.kind = RegionType::Cache;
        self.size = 0;
        Effect::Protect { ptr: self.object, size: page_size, prot: Prot::NoAccess }
    }

    /// Brings a cached page back as an empty chunk of slots of `chunk_size`
    /// bytes. Its page is to be readable and writable again.
    pub fn set_as_chunk(&mut self, chunk_size: usize, page_size: usize) -> (effect: Effect)
        requires
            old(self).kind == RegionType::Cache,
            valid_page_size(page_size),
            chunk_size == 0 || is_class_size(chunk_size, page_size),
        ensures
            (Region { kind: RegionType::Chunk, size: chunk_size, ..*old(self) }).fresh_chunk(
                *final(self),
                page_size,
            ),
            chunk_size != 0 ==> final(self).wf_chunk(page_size) && final(self).spec_empty(
                page_size,
            ),
            effect == (Effect::Protect {
                ptr: old(self).object,
                size: page_size,
                prot: Prot::ReadWrite,
            }),
    {
        self.kind = RegionType::Chunk;
        self.size = chunk_size;
        self.init_chunk(page_size);
        Effect::Protect { ptr: self.object, size: page_size, prot: Prot::ReadWrite }
    }

    /// Marks the record unused.
    pub fn set_as_free(&mut self)
        ensures
            *final(self) == (Region { object: 0, kind: RegionType::Free, ..*old(self) }),
    {
        self.object = 0;
        self.kind = RegionType::Free;
    }

    /// Whether the record is unused.
    pub fn is_free(&self) -> (free: bool)
        ensures
            free == (self.kind == RegionType::Free),
    {
        self.kind == RegionType::Free
    }

    /// Whether the record is that of a chunk.
    pub fn is_chunk(&self) -> (chunk: bool)
        ensures
            chunk == (self.kind == RegionType::Chunk),
    {
        self.kind == RegionType::Chunk
    }

    /// Whether every slot is taken (`full`) or every slot is free (not
    /// `full`).
    pub fn chunk_state(&self, full: bool, page_size: usize) -> (all: bool)
        requires
            valid_page_size(page_size),
            self.kind == RegionType::Chunk,
            is_class_size(self.size, page_size),
        ensures
            all == if full { self.spec_full(page_size) } else { self.spec_empty(page_size) },
    {
        let byte_val: u8 = if full { 0 } else { 255 };
        let max_slot_index = max_slot_index(self.size, page_size);
        proof {
            lemma_class_size(self.size, page_size);
        }
        let whole: usize = max_slot_index / 8;
        let rest: usize = max_slot_index % 8;
        let mut i: usize = 0;
        while i < whole
            invariant
                i <= whole <= 16,
                max_slot_index == self.slots(page_size),
                whole == max_slot_index / 8,
                byte_val == if full { 0u8 } else { 255u8 },
                forall|k: int| 0 <= k < 8 * i ==> self.slot_free(k) == !full,
            decreases whole - i,
        {
            let b = self.mapping[i];
            proof {
                lemma_byte_bits(b);
            }
            if b != byte_val {
                proof {
                    let k = choose|k: int| 0 <= k < 8 && bit(b, k) == full;
                    assert(self.slot_free(8 * i + k) == full);
                }
                return false;
            }
            assert forall|k: int| 0 <= k < 8 * (i + 1) implies self.slot_free(k) == !full by {
                if k >= 8 * i {
                    assert(bit(b, k % 8) == !full);
                }
            }
            i += 1;
        }
        let mut j: usize = 0;
        while j < rest
            invariant
                j <= rest < 8,
                max_slot_index == self.slots(page_size),
                whole == max_slot_index / 8,
                rest == max_slot_index % 8,
                rest != 0 ==> whole < 16,
                forall|k: int| 0 <= k < 8 * whole + j ==> self.slot_free(k) == !full,
            decreases rest - j,
        {
            let set = self.mapping[whole] & (1u8 << (j as u8)) != 0;
            assert(set == self.slot_free(8 * whole + j));
            if set == full {
                return false;
            }
            j += 1;
        }
        true
    }

    /// Whether every slot of the chunk is taken.
    pub fn is_full_chunk(&self, page_size: usize) -> (full: bool)
        requires
            valid_page_size(page_size),
            self.kind == RegionType::Chunk,
            is_class_size(self.size, page_size),
        ensures
            full == self.spec_full(page_size),
    {
        self.chunk_state(true, page_size)
    }

    /// Whether every slot of the chunk is free.
    pub fn is_empty_chunk(&self, page_size: usize) -> (empty: bool)
        requires
            valid_page_size(page_size),
            self.kind == RegionType::Chunk,
            is_class_size(self.size, page_size),
        ensures
            empty == self.spec_empty(page_size),
    {
        self.chunk_state(false, page_size)
    }

    /// Whether slot `index` is free.
    pub fn chunk_slot_is_free(&self, index: usize) -> (free: bool)
        requires
            index < 128,
        ensures
            free == self.slot_free(index as int),
    {
        self.mapping[index / 8] & (1u8 << ((index % 8) as u8)) != 0
    }

    /// The fault that refuses to free the slot at `offset` bytes into the
    /// chunk, if any.
    pub open spec fn free_slot_fault(self, offset: usize, page_size: usize) -> Option<Fault> {
        if offset >= page_size || (offset as int) % (self.size as int) != 0 {
            Some(Fault::Misaligned)
        } else if self.slot_free((offset as int) / (self.size as int)) {
            Some(Fault::DoubleFree)
        } else {
            None
        }
    }

    /// `after` is `self` with slot `slot` taken (`free` unset) or given back
    /// (`free` set), and nothing else changed.
    pub open spec fn slot_changed(self, after: Region, slot: int, free: bool) -> bool {
        &&& after.object == self.object
        &&& after.canary == self.canary
        &&& after.size == self.size
        &&& after.kind == self.kind
        &&& after.next == self.next
        &&& after.prev == self.prev
        &&& forall|k: int|
            0 <= k < 128 ==> after.slot_free(k) == if k == slot {
                free
            } else {
                self.slot_free(k)
            }
    }

    /// Takes the first free slot met when walking down from slot `start`,
    /// wrapping round to the last slot after slot 0.
    pub fn take_chunk_slot(&mut self, page_size: usize, start: usize) -> (slot: usize)
        requires
            valid_page_size(page_size),
            old(self).kind == RegionType::Chunk,
            old(self).wf_chunk(page_size),
            !old(self).spec_full(page_size),
            start < old(self).slots(page_size),
        ensures
            slot < old(self).slots(page_size),
            old(self).slot_free(slot as int),
            forall|j: int|
                0 <= j < old(self).slots(page_size) && steps_back(
                    start as int,
                    j,
                    old(self).slots(page_size),
                ) < steps_back(start as int, slot as int, old(self).slots(page_size))
                    ==> !old(self).slot_free(j),
            old(self).slot_changed(*final(self), slot as int, false),
            final(self).wf_chunk(page_size),
    {
        let max_slot_index = max_slot_index(self.size, page_size);
        proof {
            lemma_class_size(self.size, page_size);
        }
        let mut slot_index = start;
        let mut walked: usize = 0;
        while !self.chunk_slot_is_free(slot_index)
            invariant
                *self == *old(self),
                max_slot_index == self.slots(page_size),
                2 <= max_slot_index <= 128,
                start < max_slot_index,
                slot_index < max_slot_index,
                walked < max_slot_index,
                walked == steps_back(start as int, slot_index as int, max_slot_index as int),
                !self.spec_full(page_size),
                forall|j: int|
                    0 <= j < max_slot_index && steps_back(start as int, j, max_slot_index as int)
                        < walked ==> !self.slot_free(j),
            decreases max_slot_index - walked,
        {
            proof {
                if walked + 1 == max_slot_index {
                    assert forall|j: int| 0 <= j < max_slot_index implies !self.slot_free(j) by {
                        if j != slot_index {
                            assert(steps_back(start as int, j, max_slot_index as int) < walked);
                        }
                    }
                }
            }
            slot_index = if slot_index == 0 {
                max_slot_index - 1
            } else {
                slot_index - 1
            };
            walked += 1;
        }
        let ghost before = *self;
        proof {
            lemma_bit_update(self.mapping@[slot_index as int / 8], slot_index as int % 8);
        }
        self.mapping[slot_index / 8] ^= 1u8 << ((slot_index % 8) as u8);
        proof {
            assert forall|k: int| 0 <= k < 128 implies self.slot_free(k) == if k == slot_index {
                false
            } else {
                before.slot_free(k)
            } by {
                if k / 8 == slot_index as int / 8 {
                    assert(self.slot_free(k) == bit(
                        before.mapping@[slot_index as int / 8] ^ (1u8 << ((slot_index as int
                            % 8) as u8)),
                        k % 8,
                    ));
                }
            }
        }
        slot_index
    }

    /// Gives back the slot at `offset` bytes into the chunk. What is left
    /// to do is to overwrite the slot.
    pub fn free_chunk_slot(&mut self, offset: usize, page_size: usize) -> (r: Result<Effect, Fault>)
        requires
            valid_page_size(page_size),
            old(self).kind == RegionType::Chunk,
            old(self).wf_chunk(page_size),
            old(self).object + page_size <= usize::MAX,
        ensures
            match old(self).free_slot_fault(offset, page_size) {
                Some(fault) => r == Err::<Effect, Fault>(fault) && *final(self) == *old(self),
                None => r == Ok::<Effect, Fault>(
                    Effect::Fill {
                        ptr: (old(self).object + offset) as usize,
                        size: old(self).size,
                        byte: spec_fill_byte_dealloc().unwrap(),
                    },
                ) && old(self).slot_changed(
                    *final(self),
                    (offset as int) / (old(self).size as int),
                    true,
                ) && final(self).wf_chunk(page_size),
            },
    {
        proof {
            lemma_class_size(self.size, page_size);
        }
        if offset >= page_size || offset % self.size != 0 {
            return Err(Fault::Misaligned);
        }
        let slot_index = offset / self.size;
        proof {
            lemma_slot_of_offset(offset, self.size, page_size);
        }
        if self.chunk_slot_is_free(slot_index) {
            return Err(Fault::DoubleFree);
        }
        let ghost before = *self;
        proof {
            lemma_bit_update(self.mapping@[slot_index as int / 8], slot_index as int % 8);
        }
        self.mapping[slot_index / 8] |= 1u8 << ((slot_index % 8) as u8);
        proof {
            assert forall|k: int| 0 <= k < 128 implies self.slot_free(k) == if k == slot_index {
                true
            } else {
                before.slot_free(k)
            } by {
                if k / 8 == slot_index as int / 8 {
                    assert(self.slot_free(k) == bit(
                        before.mapping@[slot_index as int / 8] | (1u8 << ((slot_index as int
                            % 8) as u8)),
                        k % 8,
                    ));
                }
            }
            assert(before.slot_changed(*self, slot_index as int, true));
            assert(self.wf_chunk(page_size));
        }
        let byte = match fill_byte_dealloc() {
            Some(byte) => byte,
            None => 0,
        };
        Ok(Effect::Fill { ptr: self.object + offset, size: self.size, byte })
    }

    /// The release of the region's pages. A chunk page is overwritten only
    /// when the release is `forced`, a large object always, a cached page
    /// never.
    pub open spec fn release(self, forced: bool, page_size: usize) -> Effect {
        match self.kind {
            RegionType::Large => Effect::Unmap {
                ptr: self.object,
                size: self.size,
                fill: spec_fill_byte_dealloc(),
            },
            RegionType::Chunk => Effect::Unmap {
                ptr: self.object,
                size: page_size,
                fill: if forced { spec_fill_byte_dealloc() } else { None },
            },
            _ => Effect::Unmap { ptr: self.object, size: page_size, fill: None },
        }
    }

    /// Gives up the region's pages and marks the record unused.
    pub fn dealloc_data(&mut self, forced: bool, page_size: usize) -> (effect: Effect)
        requires
            old(self).kind != RegionType::Free,
        ensures
            effect == old(self).release(forced, page_size),
            *final(self) == (Region { object: 0, kind: RegionType::Free, ..*old(self) }),
    {
        let effect = match self.kind {
            RegionType::Chunk => {
                let fill = if forced { fill_byte_dealloc() } else { None };
                Effect::Unmap { ptr: self.object, size: page_size, fill }
            },
            RegionType::Large => Effect::Unmap {
                ptr: self.object,
                size: self.size,
                fill: fill_byte_dealloc(),
            },
            _ => Effect::Unmap { ptr: self.object, size: page_size, fill: None },
        };
        self.set_as_free();
        effect
    }
}

} // verus!
