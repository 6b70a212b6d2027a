//! Page arithmetic and the plans for mapping, unmapping and protecting pages.
//!
//! Nothing here talks to the operating system. Each function works out what
//! has to be asked of it (how many bytes, which protection, where the user's
//! pointer falls inside the mapping) and leaves the call to the driver.
use vstd::prelude::*;
use crate::fault::Fault;
use crate::utils;

verus! {

/// Smallest alignment of a pointer that is not placed on a page boundary.
pub const MIN_ALIGN: usize = 16;

/// Whether page-locking is part of every mapping plan.
pub const USE_MLOCK: bool = true;

/// Page sizes the heap works with: the powers of two from 4 KiB to 64 KiB.
pub open spec fn valid_page_size(page_size: usize) -> bool {
    page_size == 4096 || page_size == 8192 || page_size == 16384 || page_size == 32768
        || page_size == 65536
}

/// Executable test of [`valid_page_size`].
pub fn is_page_size(page_size: usize) -> (ok: bool)
    ensures
        ok == valid_page_size(page_size),
{
    page_size == 4096 || page_size == 8192 || page_size == 16384 || page_size == 32768
        || page_size == 65536
}

/// The powers of two below the page size.
pub open spec fn is_pow2_below(align: usize, page_size: usize) -> bool {
    align * 2 == page_size || align * 4 == page_size || align * 8 == page_size || align * 16
        == page_size || align * 32 == page_size || align * 64 == page_size || align * 128
        == page_size || align * 256 == page_size || align * 512 == page_size || align * 1024
        == page_size || align * 2048 == page_size || align * 4096 == page_size || align * 8192
        == page_size || align * 16384 == page_size || align * 32768 == page_size || align * 65536
        == page_size
}

/// An alignment request is zero (none) or a power of two below the page size.
pub open spec fn valid_align(align: usize, page_size: usize) -> bool {
    align == 0 || is_pow2_below(align, page_size)
}

/// Executable test of [`is_pow2_below`].
pub fn pow2_below(align: usize, page_size: usize) -> (ok: bool)
    requires
        valid_page_size(page_size),
    ensures
        ok == is_pow2_below(align, page_size),
{
    if align == 0 || align >= page_size {
        return false;
    }
    let mut p: usize = 1;
    while p < align
        invariant
            valid_page_size(page_size),
            0 < align < page_size,
            is_pow2_below(p, page_size),
            forall|q: usize| q < p && is_pow2_below(q, page_size) ==> q < align,
        decreases page_size - p,
    {
        if p >= page_size / 2 {
            return false;
        }
        p = p * 2;
    }
    p == align
}

/// The page size less one: the bits of an address that lie inside its page.
pub fn page_mask(page_size: usize) -> (mask: usize)
    requires
        page_size > 0,
    ensures
        mask == page_size - 1,
{
    page_size - 1
}

/// `x` modulo the page size, spelt out for each valid page size so that the
/// divisor is always a constant.
pub open spec fn page_rem(x: int, page_size: usize) -> int {
    if page_size == 4096 {
        x % 4096
    } else if page_size == 8192 {
        x % 8192
    } else if page_size == 16384 {
        x % 16384
    } else if page_size == 32768 {
        x % 32768
    } else {
        x % 65536
    }
}

/// `page_rem` is the remainder by the page size.
pub proof fn lemma_page_rem(x: int, page_size: usize)
    requires
        valid_page_size(page_size),
    ensures
        page_rem(x, page_size) == x % (page_size as int),
        0 <= page_rem(x, page_size) < page_size,
{
}

/// The start of the page that holds `ptr`.
pub open spec fn page_base(ptr: usize, page_size: usize) -> usize {
    (ptr - page_rem(ptr as int, page_size)) as usize
}

/// Clears the in-page bits of `ptr`.
pub fn mask_pointer(ptr: usize, page_size: usize) -> (base: usize)
    requires
        valid_page_size(page_size),
    ensures
        base == page_base(ptr, page_size),
        base <= ptr,
        ptr - base < page_size,
        page_rem(base as int, page_size) == 0,
{
    let mask = page_mask(page_size);
    let base = ptr & !mask;
    proof {
        if page_size == 4096 {
            assert(ptr & !4095usize == ptr - ptr % 4096) by (bit_vector);
        } else if page_size == 8192 {
            assert(ptr & !8191usize == ptr - ptr % 8192) by (bit_vector);
        } else if page_size == 16384 {
            assert(ptr & !16383usize == ptr - ptr % 16384) by (bit_vector);
        } else if page_size == 32768 {
            assert(ptr & !32767usize == ptr - ptr % 32768) by (bit_vector);
        } else {
            assert(ptr & !65535usize == ptr - ptr % 65536) by (bit_vector);
        }
    }
    base
}

/// The page base is the largest multiple of the page size not above `ptr`.
pub proof fn lemma_page_base(ptr: usize, page_size: usize)
    requires
        valid_page_size(page_size),
    ensures
        page_base(ptr, page_size) <= ptr,
        ptr - page_base(ptr, page_size) < page_size,
        page_rem(page_base(ptr, page_size) as int, page_size) == 0,
        page_rem(ptr as int, page_size) == 0 <==> page_base(ptr, page_size) == ptr,
        page_base(page_base(ptr, page_size), page_size) == page_base(ptr, page_size),
{
}

/// The least multiple of the page size that is at least `size`.
pub open spec fn page_ceil(size: int, page_size: usize) -> int {
    if page_rem(size, page_size) == 0 {
        size
    } else {
        size - page_rem(size, page_size) + page_size
    }
}

/// Rounding up to whole pages adds less than a page and ends on a page
/// boundary.
pub proof fn lemma_page_ceil(size: usize, page_size: usize)
    requires
        valid_page_size(page_size),
    ensures
        page_rem(page_ceil(size as int, page_size), page_size) == 0,
        size <= page_ceil(size as int, page_size) < size + page_size,
        size + page_size - 1 <= usize::MAX ==> page_base((size + page_size - 1) as usize, page_size)
            == page_ceil(size as int, page_size),
{
    let s = size as int;
    if page_size == 4096 {
        let c = if s % 4096 == 0 { s } else { s - s % 4096 + 4096 };
        assert(page_ceil(s, page_size) == c);
        assert(c % 4096 == 0 && s <= c < s + 4096);
        assert((s + 4095) - (s + 4095) % 4096 == c);
    } else if page_size == 8192 {
        let c = if s % 8192 == 0 { s } else { s - s % 8192 + 8192 };
        assert(page_ceil(s, page_size) == c);
        assert(c % 8192 == 0 && s <= c < s + 8192);
        assert((s + 8191) - (s + 8191) % 8192 == c);
    } else if page_size == 16384 {
        let c = if s % 16384 == 0 { s } else { s - s % 16384 + 16384 };
        assert(page_ceil(s, page_size) == c);
        assert(c % 16384 == 0 && s <= c < s + 16384);
        assert((s + 16383) - (s + 16383) % 16384 == c);
    } else if page_size == 32768 {
        let c = if s % 32768 == 0 { s } else { s - s % 32768 + 32768 };
        assert(page_ceil(s, page_size) == c);
        assert(c % 32768 == 0 && s <= c < s + 32768);
        assert((s + 32767) - (s + 32767) % 32768 == c);
    } else {
        let c = if s % 65536 == 0 { s } else { s - s % 65536 + 65536 };
        assert(page_ceil(s, page_size) == c);
        assert(c % 65536 == 0 && s <= c < s + 65536);
        assert((s + 65535) - (s + 65535) % 65536 == c);
    }
}

/// Rounds `size` up to whole pages; `None` when `size` plus the page mask
/// leaves the machine word.
pub fn page_round(size: usize, page_size: usize) -> (r: Option<usize>)
    requires
        valid_page_size(page_size),
    ensures
        r is None <==> size + page_size - 1 > usize::MAX,
        r matches Some(n) ==> n == page_ceil(size as int, page_size),
{
    match size.checked_add(page_mask(page_size)) {
        None => None,
        Some(sum) => {
            proof {
                lemma_page_ceil(size, page_size);
            }
            Some(mask_pointer(sum, page_size))
        },
    }
}

/// Where the user's bytes go inside the pages mapped for them.
#[derive(Clone, Copy, Debug, PartialEq, Eq, Structural)]
pub enum RangePos {
    /// On the first byte of the first page.
    Start,
    /// As close to the end of the last page as the alignment allows.
    End,
    /// At a random aligned place.
    Rand,
}

/// Page protection. `NoAccess` allows neither reading nor writing; on most
/// hardware `Write` cannot be had without reading.
#[derive(Clone, Copy, Debug, PartialEq, Eq, Structural)]
pub enum Prot {
    NoAccess,
    Read,
    Write,
    ReadWrite,
}

/// What the driver has to do to serve one allocation: map `full_size` bytes
/// with protection `prot`, make the first and the last page of them
/// inaccessible, lock the `region_size` bytes in between if `lock` is set,
/// keep them out of core dumps and child processes, fill them with `fill`,
/// and hand out the address `page_size + offset` bytes into the mapping.
#[derive(Clone, Copy, Debug, PartialEq, Eq)]
pub struct Mapping {
    pub full_size: usize,
    pub region_size: usize,
    pub offset: usize,
    pub prot: Prot,
    pub fill: Option<u8>,
    pub lock: bool,
}

/// The granularity at which an allocation is placed inside its pages.
pub open spec fn placement_align(align: usize, pos: RangePos) -> usize {
    if pos == RangePos::Start {
        1
    } else if align < MIN_ALIGN {
        MIN_ALIGN
    } else {
        align
    }
}

/// The distance from the start of the user pages to the user's pointer.
/// `RangePos::Rand` puts it at the aligned place numbered `draw`, or at the
/// first place if there is no place of that number at which the allocation
/// still fits and another after it; the other positions do not look at
/// `draw`.
pub open spec fn placement(
    size: usize,
    region_size: usize,
    align: usize,
    pos: RangePos,
    draw: usize,
) -> int {
    let room = region_size - size;
    let step = placement_align(align, pos) as int;
    match pos {
        RangePos::Start => 0,
        RangePos::End => room - room % step,
        RangePos::Rand => if draw < room / step {
            draw * step
        } else {
            0
        },
    }
}

/// The fault that refuses a mapping request, if any.
pub open spec fn allocate_fault(size: usize, align: usize, page_size: usize) -> Option<Fault> {
    if size + page_size - 1 > usize::MAX {
        Some(Fault::Overflow)
    } else if page_ceil(size as int, page_size) + 2 * page_size > usize::MAX {
        Some(Fault::Overflow)
    } else if !valid_align(align, page_size) {
        Some(Fault::Alignment)
    } else if page_ceil(size as int, page_size) + 2 * page_size > isize::MAX {
        Some(Fault::Overflow)
    } else {
        None
    }
}

/// The plan that serves a request, given the draw that places it.
pub open spec fn mapping_plan(
    size: usize,
    align: usize,
    fill: Option<u8>,
    prot: Prot,
    pos: RangePos,
    page_size: usize,
    draw: usize,
) -> Mapping {
    let region_size = page_ceil(size as int, page_size) as usize;
    Mapping {
        full_size: (region_size + 2 * page_size) as usize,
        region_size,
        offset: placement(size, region_size, align, pos, draw) as usize,
        prot,
        fill,
        lock: USE_MLOCK,
    }
}

/// Plans a mapping with the placement already drawn.
pub fn allocate_at(
    size: usize,
    align: usize,
    fill: Option<u8>,
    prot: Prot,
    pos: RangePos,
    page_size: usize,
    draw: usize,
) -> (r: Result<Mapping, Fault>)
    requires
        valid_page_size(page_size),
    ensures
        r == match allocate_fault(size, align, page_size) {
            Some(fault) => Err::<Mapping, Fault>(fault),
            None => Ok(mapping_plan(size, align, fill, prot, pos, page_size, draw)),
        },
        r matches Ok(plan) ==> plan.offset + size <= plan.region_size,
{
    let region_size = match page_round(size, page_size) {
        Some(n) => n,
        None => { return Err(Fault::Overflow); },
    };
    let full_size = match region_size.checked_add(2 * page_size) {
        Some(n) => n,
        None => { return Err(Fault::Overflow); },
    };
    if align > 0 && !pow2_below(align, page_size) {
        return Err(Fault::Alignment);
    }
    if utils::to_isize(full_size).is_none() {
        return Err(Fault::Overflow);
    }
    let step: usize = match pos {
        RangePos::Start => 1,
        _ => if align < MIN_ALIGN { MIN_ALIGN } else { align },
    };
    let room: usize = region_size - size;
    let offset: usize = match pos {
        RangePos::Start => 0,
        RangePos::End => {
            assert(room % step <= room) by (nonlinear_arith)
                requires
                    step > 0,
            ;
            room - room % step
        },
        RangePos::Rand => {
            let places = room / step;
            let d = if draw < places { draw } else { 0 };
            assert(d * step <= room) by (nonlinear_arith)
                requires
                    d <= room / step,
                    step > 0,
            ;
            d * step
        },
    };
    Ok(Mapping { full_size, region_size, offset, prot, fill, lock: USE_MLOCK })
}

/// Plans the mapping for `size` bytes. `align` is zero or a power of two
/// below the page size. The user's pointer will be `page_size + offset` bytes
/// into the mapping; for `RangePos::Rand` the offset is drawn here.
pub fn allocate(
    size: usize,
    align: usize,
    fill: Option<u8>,
    prot: Prot,
    pos: RangePos,
    page_size: usize,
) -> (r: Result<Mapping, Fault>)
    requires
        valid_page_size(page_size),
    ensures
        allocate_fault(size, align, page_size) matches Some(fault) ==> r == Err::<Mapping, Fault>(
            fault,
        ),
        allocate_fault(size, align, page_size) is None ==> exists|draw: usize|
            r == Ok::<Mapping, Fault>(
                #[trigger] mapping_plan(size, align, fill, prot, pos, page_size, draw),
            ),
{
    let draw: usize = match pos {
        RangePos::Rand => {
            match page_round(size, page_size) {
                Some(region_size) => {
                    let step: usize = if align < MIN_ALIGN { MIN_ALIGN } else { align };
                    utils::gen_range(0, (region_size - size) / step)
                },
                None => 0,
            }
        },
        _ => 0,
    };
    allocate_at(size, align, fill, prot, pos, page_size, draw)
}

/// What the driver has to do to release an allocation: if `fill` is set,
/// make the `region_size` bytes at `region` writable and overwrite them with
/// it; unlock them if `unlock` is set; then unmap `full_size` bytes from
/// `start`, the guard pages with them.
#[derive(Clone, Copy, Debug, PartialEq, Eq)]
pub struct Unmapping {
    pub region: usize,
    pub region_size: usize,
    pub start: usize,
    pub full_size: usize,
    pub fill: Option<u8>,
    pub unlock: bool,
}

/// The fault that refuses to release `size` bytes at the non-null `ptr`.
pub open spec fn deallocate_fault(ptr: usize, size: usize, page_size: usize) -> Option<Fault> {
    if size + page_size - 1 > usize::MAX {
        Some(Fault::Overflow)
    } else if page_ceil(size as int, page_size) + 2 * page_size > usize::MAX {
        Some(Fault::Overflow)
    } else if page_base(ptr, page_size) < page_size {
        Some(Fault::Mapping)
    } else {
        None
    }
}

/// The plan that releases `size` bytes at `ptr`.
pub open spec fn unmapping_plan(ptr: usize, size: usize, fill: Option<u8>, page_size: usize) -> Unmapping {
    let region_size = page_ceil(size as int, page_size) as usize;
    Unmapping {
        region: page_base(ptr, page_size),
        region_size,
        start: (page_base(ptr, page_size) - page_size) as usize,
        full_size: (region_size + 2 * page_size) as usize,
        fill,
        unlock: USE_MLOCK,
    }
}

/// Plans the release of the `size` bytes that were mapped at `ptr`. A null
/// pointer needs nothing done.
pub fn deallocate(ptr: usize, size: usize, fill: Option<u8>, page_size: usize) -> (r: Result<
    Option<Unmapping>,
    Fault,
>)
    requires
        valid_page_size(page_size),
    ensures
        ptr == 0 ==> r == Ok::<Option<Unmapping>, Fault>(None),
        ptr != 0 ==> r == match deallocate_fault(ptr, size, page_size) {
            Some(fault) => Err::<Option<Unmapping>, Fault>(fault),
            None => Ok(Some(unmapping_plan(ptr, size, fill, page_size))),
        },
{
    if ptr == 0 {
        return Ok(None);
    }
    let region_size = match page_round(size, page_size) {
        Some(n) => n,
        None => { return Err(Fault::Overflow); },
    };
    let full_size = match region_size.checked_add(2 * page_size) {
        Some(n) => n,
        None => { return Err(Fault::Overflow); },
    };
    let region = mask_pointer(ptr, page_size);
    if region < page_size {
        return Err(Fault::Mapping);
    }
    Ok(Some(Unmapping {
        region,
        region_size,
        start: region - page_size,
        full_size,
        fill,
        unlock: USE_MLOCK,
    }))
}

/// A change of protection: `len` bytes from `addr` get `prot`.
#[derive(Clone, Copy, Debug, PartialEq, Eq)]
pub struct Protection {
    pub addr: usize,
    pub len: usize,
    pub prot: Prot,
}

/// Plans a change of protection of the `size` bytes mapped at `ptr`: whole
/// pages, from the start of the page that holds `ptr`. A null pointer needs
/// nothing done.
pub fn protect(ptr: usize, size: usize, prot: Prot, page_size: usize) -> (r: Result<
    Option<Protection>,
    Fault,
>)
    requires
        valid_page_size(page_size),
    ensures
        ptr == 0 ==> r == Ok::<Option<Protection>, Fault>(None),
        ptr != 0 && size + page_size - 1 > usize::MAX ==> r == Err::<Option<Protection>, Fault>(
            Fault::Overflow,
        ),
        ptr != 0 && size + page_size - 1 <= usize::MAX ==> r == Ok::<Option<Protection>, Fault>(
            Some(
                Protection {
                    addr: page_base(ptr, page_size),
                    len: page_ceil(size as int, page_size) as usize,
                    prot,
                },
            ),
        ),
{
    if ptr == 0 {
        return Ok(None);
    }
    match page_round(size, page_size) {
        Some(len) => Ok(Some(Protection { addr: mask_pointer(ptr, page_size), len, prot })),
        None => Err(Fault::Overflow),
    }
}

} // verus!
