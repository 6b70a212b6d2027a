//! The allocator's front: requests by size and alignment, in the manner of
//! `malloc`, `calloc`, `realloc` and `free`, served by a thread's directory.
//!
//! Every function takes the directory it works on. A request that needs
//! pages answers `NeedMap`; the caller maps them and repeats the request with
//! their address. Memory from `malloc_key` and `realloc_key` always has pages
//! of its own, and only such memory can have its protection changed.
use vstd::prelude::*;
use crate::dir::Dir;
use crate::state::{
    empty_view, is_large, lemma_multiple, lemma_small_place, lemma_sound_sizes,
    lemma_sum_of_multiples, mappable, AllocStep, DirView, Draws,
};
use crate::fault::Fault;
use crate::mmap::{
    is_pow2_below, lemma_page_base, lemma_page_rem, page_base, page_ceil, page_rem, placement,
    pow2_below, valid_align, valid_page_size, Prot, RangePos, MIN_ALIGN,
};
use crate::region::{is_class_size, spec_chunk_size};
use crate::region::Effect;

verus! {

/// The first of 1, 2, 4, ... from `p` on that is not below `n`.
pub open spec fn pow2_from(p: nat, n: nat) -> nat
    decreases (if n > p { n - p } else { 0 }),
{
    if p >= n || p == 0 {
        p
    } else {
        pow2_from(2 * p, n)
    }
}

/// The least power of two that is not below `n`.
pub open spec fn spec_next_power_of_two(n: nat) -> nat {
    pow2_from(1, n)
}

/// Doubling never goes down.
pub proof fn lemma_pow2_from(p: nat, n: nat)
    ensures
        pow2_from(p, n) >= p,
        p > 0 ==> pow2_from(p, n) >= n,
    decreases (if n > p { n - p } else { 0 }),
{
    if !(p >= n || p == 0) {
        lemma_pow2_from(2 * p, n);
    }
}

/// Doubling a multiple of 65536 gives multiples of 65536.
pub proof fn lemma_pow2_from_large(p: nat, n: nat)
    requires
        p % 65536 == 0,
    ensures
        pow2_from(p, n) % 65536 == 0,
    decreases (if n > p { n - p } else { 0 }),
{
    if !(p >= n || p == 0) {
        lemma_pow2_from_large(2 * p, n);
    }
}

/// The least power of two that is not below `n` is one of 1, 2, 4, ...,
/// 65536, or a multiple of 65536.
pub proof fn lemma_pow2_shape(n: nat)
    ensures
        pow2_shaped(spec_next_power_of_two(n) as int),
{
    reveal_with_fuel(pow2_from, 18);
    if n > 65536 {
        assert(spec_next_power_of_two(n) == pow2_from(131072, n));
        lemma_pow2_from_large(131072, n);
        lemma_pow2_from(131072, n);
    }
}

/// The least power of two that is not below `n`, if the machine word
/// holds it.
pub fn next_power_of_two(n: usize) -> (r: Option<usize>)
    ensures
        r == if spec_next_power_of_two(n as nat) <= usize::MAX {
            Some(spec_next_power_of_two(n as nat) as usize)
        } else {
            None
        },
{
    let mut p: usize = 1;
    while p < n
        invariant
            p > 0,
            pow2_from(p as nat, n as nat) == spec_next_power_of_two(n as nat),
        decreases (if n > p { n - p } else { 0 }),
    {
        if p > usize::MAX / 2 {
            proof {
                lemma_pow2_from(2 * p as nat, n as nat);
            }
            return None;
        }
        p = p * 2;
    }
    Some(p)
}

/// The fault that refuses a request of `size` bytes aligned to `align`, if
/// any: an alignment of `MIN_ALIGN` or more rounds the size up to a power of
/// two, which the machine word has to hold.
pub open spec fn align_fault(align: usize, size: usize, page_size: usize) -> Option<Fault> {
    if is_pow2_below(align, page_size) && align >= MIN_ALIGN && spec_next_power_of_two(size as nat)
        > usize::MAX {
        Some(Fault::Overflow)
    } else {
        None
    }
}

/// The size that is asked of the directory for `size` bytes aligned to
/// `align`, if the alignment is valid. No alignment and alignments below
/// `MIN_ALIGN` come for free. Any other makes the size a power of two that
/// is at least the alignment, so that every slot of its class and every
/// mapping of its own is aligned.
pub open spec fn spec_align_to_size(align: usize, size: usize, page_size: usize) -> Option<usize> {
    if align == 0 {
        Some(size)
    } else if !is_pow2_below(align, page_size) {
        None
    } else if align < MIN_ALIGN {
        Some(size)
    } else if spec_next_power_of_two(size as nat) > align {
        Some(spec_next_power_of_two(size as nat) as usize)
    } else {
        Some(align)
    }
}

/// The size that is asked of the directory for `size` bytes aligned to
/// `align`; `None` for an invalid alignment.
pub fn align_to_size(align: usize, size: usize, page_size: usize) -> (r: Result<Option<usize>, Fault>)
    requires
        valid_page_size(page_size),
    ensures
        r == match align_fault(align, size, page_size) {
            Some(fault) => Err::<Option<usize>, Fault>(fault),
            None => Ok(spec_align_to_size(align, size, page_size)),
        },
{
    if align == 0 {
        return Ok(Some(size));
    }
    if !pow2_below(align, page_size) {
        return Ok(None);
    }
    if align < MIN_ALIGN {
        return Ok(Some(size));
    }
    match next_power_of_two(size) {
        None => Err(Fault::Overflow),
        Some(rounded) => Ok(Some(if rounded > align { rounded } else { align })),
    }
}

/// The handle on the directory of a thread.
pub struct ThreadDir {
    dir: Dir,
}

impl View for ThreadDir {
    type V = DirView;

    closed spec fn view(&self) -> DirView {
        self.dir@
    }
}

impl ThreadDir {
    /// The directory behind the handle is in order.
    pub closed spec fn wf(&self) -> bool {
        self.dir.wf()
    }

    /// The directory behind the handle.
    pub closed spec fn spec_dir(&self) -> Dir {
        self.dir
    }

    /// The directory behind the handle is registered where that behind
    /// `before` is, under the same canary.
    pub open spec fn anchored_as(&self, before: ThreadDir) -> bool {
        &&& self.spec_dir().spec_base() == before.spec_dir().spec_base()
        &&& self.spec_dir().spec_canary1() == before.spec_dir().spec_canary1()
    }

    /// The handle on a new directory registered at `base`; `None` if the
    /// operating system has no randomness for its canary.
    pub fn new(page_size: usize, base: usize) -> (made: Option<ThreadDir>)
        requires
            valid_page_size(page_size),
        ensures
            made matches Some(handle) ==> handle.wf() && handle@ == empty_view(
                page_size,
            ) && handle.spec_dir().spec_base() == base,
    {
        match Dir::init(page_size, base) {
            Some(dir) => Some(ThreadDir { dir }),
            None => None,
        }
    }

    /// The handle on `dir`.
    pub fn from_dir(dir: Dir) -> (handle: ThreadDir)
        ensures
            handle@ == dir@,
            handle.wf() == dir.wf(),
            handle.spec_dir() == dir,
    {
        ThreadDir { dir }
    }

    /// The directory behind the handle.
    pub fn dir(&self) -> (dir: &Dir)
        ensures
            *dir == self.spec_dir(),
            dir@ == self@,
            dir.wf() == self.wf(),
    {
        &self.dir
    }

    /// Starts the statistics of the directory anew if `on` is set, and
    /// drops them if not.
    pub fn set_stats(&mut self, on: bool)
        requires
            old(self).wf(),
        ensures
            final(self).wf(),
            final(self).anchored_as(*old(self)),
            final(self)@ == old(self)@.noted(
                if on { Some(crate::stats::no_stats()) } else { None },
            ),
    {
        self.dir.set_stats(on)
    }

    /// The directory, handed back for teardown.
    pub fn into_dir(self) -> (dir: Dir)
        ensures
            dir == self.spec_dir(),
            dir@ == self@,
            dir.wf() == self.wf(),
    {
        self.dir
    }

    /// Serves a request for `size` bytes; see `Dir::allocate`.
    pub fn allocate(&mut self, size: usize, zero_fill: bool, force_large: bool, mapped: Option<usize>) -> (r:
        Result<AllocStep, Fault>)
        requires
            old(self).wf(),
        ensures
            final(self).wf(),
            final(self).anchored_as(*old(self)),
            exists|draws: Draws|
                old(self)@.alloc_outcome(
                    final(self)@,
                    r,
                    size,
                    zero_fill,
                    force_large,
                    mapped,
                    draws,
                ),
    {
        let ghost before = self.dir@;
        let r = self.dir.allocate(size, zero_fill, force_large, mapped);
        proof {
            assert(old(self)@ == before);
            assert(self@ == self.dir@);
            let draws = choose|draws: Draws|
                before.alloc_outcome(self.dir@, r, size, zero_fill, force_large, mapped, draws);
            assert(before.alloc_outcome(self@, r, size, zero_fill, force_large, mapped, draws));
        }
        r
    }

    /// Moves the allocation at `ptr` to new memory of `size` bytes; see
    /// `Dir::realloc`.
    pub fn realloc(
        &mut self,
        ptr: usize,
        size: usize,
        zero_fill: bool,
        force_large: bool,
        mapped: Option<usize>,
    ) -> (r: Result<AllocStep, Fault>)
        requires
            old(self).wf(),
        ensures
            final(self).wf(),
            final(self).anchored_as(*old(self)),
            exists|draws: Draws|
                old(self)@.realloc_outcome(
                    final(self)@,
                    r,
                    ptr,
                    size,
                    zero_fill,
                    force_large,
                    mapped,
                    draws,
                ),
    {
        let ghost before = self.dir@;
        let r = self.dir.realloc(ptr, size, zero_fill, force_large, mapped);
        proof {
            assert(old(self)@ == before);
            assert(self@ == self.dir@);
            let draws = choose|draws: Draws|
                before.realloc_outcome(
                    self.dir@,
                    r,
                    ptr,
                    size,
                    zero_fill,
                    force_large,
                    mapped,
                    draws,
                );
            assert(before.realloc_outcome(
                self@,
                r,
                ptr,
                size,
                zero_fill,
                force_large,
                mapped,
                draws,
            ));
        }
        r
    }

    /// Frees the allocation at `ptr`; see `Dir::dealloc`.
    pub fn dealloc(&mut self, ptr: usize) -> (r: Result<Vec<Effect>, Fault>)
        requires
            old(self).wf(),
        ensures
            final(self).wf(),
            final(self).anchored_as(*old(self)),
            old(self)@.dealloc_outcome(final(self)@, r, ptr),
    {
        self.dir.dealloc(ptr)
    }

    /// Asks for the protection `prot` on the large object at `ptr`; see
    /// `Dir::protect`.
    pub fn protect(&mut self, ptr: usize, prot: Prot) -> (r: Result<Vec<Effect>, Fault>)
        requires
            old(self).wf(),
        ensures
            final(self).wf(),
            final(self).anchored_as(*old(self)),
            old(self)@.protect_outcome(final(self)@, r, ptr, prot),
    {
        self.dir.protect(ptr, prot)
    }
}

/// Whether `r` and the state `after` are what a request of `size` bytes
/// aligned to `align` comes to in the state `before`: a fault of the size
/// arithmetic, the null pointer for an invalid alignment, or what the
/// directory makes of the adjusted size under some draws.
pub open spec fn malloc_outcome(
    before: DirView,
    after: DirView,
    r: Result<AllocStep, Fault>,
    size: usize,
    align: usize,
    zero_fill: bool,
    force_large: bool,
    mapped: Option<usize>,
) -> bool {
    match align_fault(align, size, before.page_size) {
        Some(fault) => r == Err::<AllocStep, Fault>(fault) && after == before,
        None => match spec_align_to_size(align, size, before.page_size) {
            None => {
                &&& after == before
                &&& r matches Ok(AllocStep::Done { ptr, effects })
                &&& ptr == 0
                &&& effects@ == Seq::<Effect>::empty()
            },
            Some(adjusted) => exists|draws: Draws|
                before.alloc_outcome(after, r, adjusted, zero_fill, force_large, mapped, draws),
        },
    }
}

fn xmalloc(
    dir: &mut ThreadDir,
    size: usize,
    align: usize,
    zero_fill: bool,
    force_large: bool,
    mapped: Option<usize>,
) -> (r: Result<AllocStep, Fault>)
    requires
        old(dir).wf(),
    ensures
        final(dir).wf(),
        final(dir).anchored_as(*old(dir)),
        malloc_outcome(old(dir)@, final(dir)@, r, size, align, zero_fill, force_large, mapped),
        align != 0 && r is Ok ==> (r.unwrap() matches AllocStep::Done { ptr, effects } ==> ptr as int
            % align as int == 0),
{
    proof {
        dir.lemma_page_size();
        dir.lemma_sound();
    }
    let ghost before = dir@;
    let page_size = dir.dir().page_size();
    let adjusted = match align_to_size(align, size, page_size) {
        Err(fault) => { return Err(fault); },
        Ok(None) => {
            assert(0int % (align as int) == 0) by (nonlinear_arith)
                requires
                    align > 0,
            ;
            return Ok(AllocStep::Done { ptr: 0, effects: Vec::new() });
        },
        Ok(Some(adjusted)) => adjusted,
    };
    let r = dir.allocate(adjusted, zero_fill, force_large, mapped);
    proof {
        let draws = choose|draws: Draws|
            before.alloc_outcome(dir@, r, adjusted, zero_fill, force_large, mapped, draws);
        if align != 0 && r is Ok && r.unwrap() is Done {
            lemma_malloc_aligned(before, size, align, zero_fill, force_large, mapped, draws);
        }
    }
    r
}

impl ThreadDir {
    /// A directory in order is in a sound state.
    pub proof fn lemma_sound(&self)
        requires
            self.wf(),
        ensures
            self@.sound(),
    {
        self.dir.lemma_sound();
    }

    /// The page size of a directory in order is valid.
    pub proof fn lemma_page_size(&self)
        requires
            self.wf(),
        ensures
            valid_page_size(self@.page_size),
    {
        self.dir.lemma_page_size();
    }
}

/// Asks for `size` bytes at an address that is a multiple of `align`;
/// `align` zero asks for no alignment. An `align` that is neither zero nor a
/// power of two below the page size is answered with the null pointer.
pub fn malloc(dir: &mut ThreadDir, size: usize, align: usize, mapped: Option<usize>) -> (r: Result<
    AllocStep,
    Fault,
>)
    requires
        old(dir).wf(),
    ensures
        final(dir).wf(),
        final(dir).anchored_as(*old(dir)),
        malloc_outcome(old(dir)@, final(dir)@, r, size, align, false, false, mapped),
        align != 0 && r is Ok ==> (r.unwrap() matches AllocStep::Done { ptr, effects } ==> ptr as int
            % align as int == 0),
{
    xmalloc(dir, size, align, false, false, mapped)
}

/// Asks for zeroed memory for `count` items of `size` bytes. Refused when
/// the machine word does not hold their product.
pub fn calloc(dir: &mut ThreadDir, count: usize, size: usize, align: usize, mapped: Option<usize>) -> (r:
    Result<AllocStep, Fault>)
    requires
        old(dir).wf(),
    ensures
        final(dir).wf(),
        final(dir).anchored_as(*old(dir)),
        count * size > usize::MAX ==> r == Err::<AllocStep, Fault>(Fault::Overflow) && final(dir)@
            == old(dir)@,
        count * size <= usize::MAX ==> malloc_outcome(
            old(dir)@,
            final(dir)@,
            r,
            (count * size) as usize,
            align,
            true,
            false,
            mapped,
        ),
        align != 0 && r is Ok ==> (r.unwrap() matches AllocStep::Done { ptr, effects } ==> ptr as int
            % align as int == 0),
{
    match count.checked_mul(size) {
        None => Err(Fault::Overflow),
        Some(full_size) => xmalloc(dir, full_size, align, true, false, mapped),
    }
}

/// Asks for `size` bytes whose protection can be changed with
/// `protect_read`, `protect_write` and `protect_none`.
pub fn malloc_key(dir: &mut ThreadDir, size: usize, align: usize, mapped: Option<usize>) -> (r: Result<
    AllocStep,
    Fault,
>)
    requires
        old(dir).wf(),
    ensures
        final(dir).wf(),
        final(dir).anchored_as(*old(dir)),
        malloc_outcome(old(dir)@, final(dir)@, r, size, align, false, true, mapped),
        align != 0 && r is Ok ==> (r.unwrap() matches AllocStep::Done { ptr, effects } ==> ptr as int
            % align as int == 0),
{
    xmalloc(dir, size, align, false, true, mapped)
}

/// Whether `r` and the state `after` are what a reallocation of `ptr` to
/// `size` bytes aligned to `align` comes to in the state `before`.
pub open spec fn realloc_outcome(
    before: DirView,
    after: DirView,
    r: Result<AllocStep, Fault>,
    ptr: usize,
    size: usize,
    align: usize,
    force_large: bool,
    mapped: Option<usize>,
) -> bool {
    match align_fault(align, size, before.page_size) {
        Some(fault) => r == Err::<AllocStep, Fault>(fault) && after == before,
        None => match spec_align_to_size(align, size, before.page_size) {
            None => {
                &&& after == before
                &&& r matches Ok(AllocStep::Done { ptr: new, effects })
                &&& new == 0
                &&& effects@ == Seq::<Effect>::empty()
            },
            Some(adjusted) => exists|draws: Draws|
                before.realloc_outcome(after, r, ptr, adjusted, false, force_large, mapped, draws),
        },
    }
}

fn xrealloc(
    dir: &mut ThreadDir,
    ptr: usize,
    size: usize,
    align: usize,
    force_large: bool,
    mapped: Option<usize>,
) -> (r: Result<AllocStep, Fault>)
    requires
        old(dir).wf(),
    ensures
        final(dir).wf(),
        final(dir).anchored_as(*old(dir)),
        realloc_outcome(old(dir)@, final(dir)@, r, ptr, size, align, force_large, mapped),
        align != 0 && r is Ok ==> (r.unwrap() matches AllocStep::Done { ptr: new, effects } ==> new as int
            % align as int == 0),
{
    proof {
        dir.lemma_page_size();
        dir.lemma_sound();
    }
    let ghost before = dir@;
    let page_size = dir.dir().page_size();
    let adjusted = match align_to_size(align, size, page_size) {
        Err(fault) => { return Err(fault); },
        Ok(None) => {
            assert(0int % (align as int) == 0) by (nonlinear_arith)
                requires
                    align > 0,
            ;
            return Ok(AllocStep::Done { ptr: 0, effects: Vec::new() });
        },
        Ok(Some(adjusted)) => adjusted,
    };
    let r = dir.realloc(ptr, adjusted, false, force_large, mapped);
    proof {
        let draws = choose|draws: Draws|
            before.realloc_outcome(dir@, r, ptr, adjusted, false, force_large, mapped, draws);
        if align != 0 && r is Ok && r.unwrap() is Done {
            lemma_malloc_aligned(before, size, align, false, force_large, mapped, draws);
        }
    }
    r
}

/// Moves the allocation at `ptr` to new memory of `size` bytes and frees
/// it. A null `ptr` makes this `malloc`.
pub fn realloc(dir: &mut ThreadDir, ptr: usize, size: usize, align: usize, mapped: Option<usize>) -> (r:
    Result<AllocStep, Fault>)
    requires
        old(dir).wf(),
    ensures
        final(dir).wf(),
        final(dir).anchored_as(*old(dir)),
        realloc_outcome(old(dir)@, final(dir)@, r, ptr, size, align, false, mapped),
        align != 0 && r is Ok ==> (r.unwrap() matches AllocStep::Done { ptr: new, effects } ==> new as int
            % align as int == 0),
{
    xrealloc(dir, ptr, size, align, false, mapped)
}

/// `realloc` for memory from `malloc_key`.
pub fn realloc_key(dir: &mut ThreadDir, ptr: usize, size: usize, align: usize, mapped: Option<usize>) -> (r:
    Result<AllocStep, Fault>)
    requires
        old(dir).wf(),
    ensures
        final(dir).wf(),
        final(dir).anchored_as(*old(dir)),
        realloc_outcome(old(dir)@, final(dir)@, r, ptr, size, align, true, mapped),
        align != 0 && r is Ok ==> (r.unwrap() matches AllocStep::Done { ptr: new, effects } ==> new as int
            % align as int == 0),
{
    xrealloc(dir, ptr, size, align, true, mapped)
}

/// Frees the allocation at `ptr`. Nothing happens for the null pointer and
/// for the address empty requests are served with.
pub fn free(dir: &mut ThreadDir, ptr: usize) -> (r: Result<Vec<Effect>, Fault>)
    requires
        old(dir).wf(),
    ensures
        final(dir).wf(),
        final(dir).anchored_as(*old(dir)),
        old(dir)@.dealloc_outcome(final(dir)@, r, ptr),
{
    dir.dealloc(ptr)
}

/// Asks for the memory at `ptr`, which is from `malloc_key`, to be made
/// read-only.
pub fn protect_read(dir: &mut ThreadDir, ptr: usize) -> (r: Result<Vec<Effect>, Fault>)
    requires
        old(dir).wf(),
    ensures
        final(dir).wf(),
        final(dir).anchored_as(*old(dir)),
        old(dir)@.protect_outcome(final(dir)@, r, ptr, Prot::Read),
{
    dir.protect(ptr, Prot::Read)
}

/// Asks for the memory at `ptr`, which is from `malloc_key`, to be made
/// write-only. On most hardware that allows reading too.
pub fn protect_write(dir: &mut ThreadDir, ptr: usize) -> (r: Result<Vec<Effect>, Fault>)
    requires
        old(dir).wf(),
    ensures
        final(dir).wf(),
        final(dir).anchored_as(*old(dir)),
        old(dir)@.protect_outcome(final(dir)@, r, ptr, Prot::Write),
{
    dir.protect(ptr, Prot::Write)
}

/// Asks for the memory at `ptr`, which is from `malloc_key`, to lose all
/// access.
pub fn protect_none(dir: &mut ThreadDir, ptr: usize) -> (r: Result<Vec<Effect>, Fault>)
    requires
        old(dir).wf(),
    ensures
        final(dir).wf(),
        final(dir).anchored_as(*old(dir)),
        old(dir)@.protect_outcome(final(dir)@, r, ptr, Prot::NoAccess),
{
    dir.protect(ptr, Prot::NoAccess)
}

/// A multiple of the page size, and a multiple of a power of two below it
/// that is at least `align`, is a multiple of `align`.
pub proof fn lemma_unit_aligned(ptr: int, unit: usize, align: usize, page_size: usize)
    requires
        valid_page_size(page_size),
        is_pow2_below(align, page_size),
        unit == page_size || is_pow2_below(unit, page_size),
        unit >= align,
        ptr % (unit as int) == 0,
    ensures
        ptr % (align as int) == 0,
{
    let u = unit as int;
    let a = align as int;
    if u == a {
    } else if u == 2 * a {
        lemma_multiple(ptr, u, a, 2);
    } else if u == 4 * a {
        lemma_multiple(ptr, u, a, 4);
    } else if u == 8 * a {
        lemma_multiple(ptr, u, a, 8);
    } else if u == 16 * a {
        lemma_multiple(ptr, u, a, 16);
    } else if u == 32 * a {
        lemma_multiple(ptr, u, a, 32);
    } else if u == 64 * a {
        lemma_multiple(ptr, u, a, 64);
    } else if u == 128 * a {
        lemma_multiple(ptr, u, a, 128);
    } else if u == 256 * a {
        lemma_multiple(ptr, u, a, 256);
    } else if u == 512 * a {
        lemma_multiple(ptr, u, a, 512);
    } else if u == 1024 * a {
        lemma_multiple(ptr, u, a, 1024);
    } else if u == 2048 * a {
        lemma_multiple(ptr, u, a, 2048);
    } else if u == 4096 * a {
        lemma_multiple(ptr, u, a, 4096);
    } else if u == 8192 * a {
        lemma_multiple(ptr, u, a, 8192);
    } else if u == 16384 * a {
        lemma_multiple(ptr, u, a, 16384);
    } else if u == 32768 * a {
        lemma_multiple(ptr, u, a, 32768);
    } else {
        lemma_multiple(ptr, u, a, 65536);
    }
}

/// Memory is aligned as asked, whether it is a slot, a mapping of its own
/// or memory for a key: whenever a request of `size` bytes with a valid
/// alignment is served in a sound state, it is served at an address that is
/// not null and is a multiple of the alignment, with the bytes asked for
/// inside the pages of their mapping, and those of a slot inside one page.
pub proof fn lemma_malloc_aligned(
    before: DirView,
    size: usize,
    align: usize,
    zero_fill: bool,
    force_large: bool,
    mapped: Option<usize>,
    draws: Draws,
)
    requires
        before.sound(),
        valid_align(align, before.page_size),
        align_fault(align, size, before.page_size) is None,
        before.alloc_fault(
            spec_align_to_size(align, size, before.page_size).unwrap(),
            zero_fill,
            force_large,
            mapped,
        ) is None,
        !(mapped is None && before.map_request(
            spec_align_to_size(align, size, before.page_size).unwrap(),
            zero_fill,
            force_large,
        ) is Some),
    ensures
        ({
            let adjusted = spec_align_to_size(align, size, before.page_size).unwrap();
            let page = if mapped is Some { mapped.unwrap() } else { 0 };
            let ptr = before.alloc_ptr(adjusted, force_large, page, draws);
            &&& adjusted >= size
            &&& ptr != 0
            &&& ptr + adjusted <= usize::MAX
            &&& adjusted <= before.page_size / 2 ==> page_rem(ptr as int, before.page_size) + size
                <= before.page_size
            &&& is_large(adjusted, force_large, before.page_size) ==> ptr + adjusted <= page_base(
                ptr,
                before.page_size,
            ) + page_ceil(adjusted as int, before.page_size)
            &&& align == 0 || (ptr as int) % (align as int) == 0
        }),
{
    let ps = before.page_size;
    let adjusted = spec_align_to_size(align, size, ps).unwrap();
    let page = if mapped is Some { mapped.unwrap() } else { 0 };
    let ptr = before.alloc_ptr(adjusted, force_large, page, draws);
    lemma_sound_sizes(before);
    lemma_pow2_from(1, size as nat);
    if force_large {
        lemma_key_place(ps, size, align, ptr);
    } else if is_large(adjusted, false, ps) {
        lemma_page_base(ptr, ps);
        lemma_page_rem(ptr as int, ps);
        crate::mmap::lemma_page_ceil(adjusted, ps);
        if align != 0 {
            lemma_unit_aligned(ptr as int, ps, align, ps);
        }
    } else {
        lemma_small_place(before, adjusted, page, draws);
        if align != 0 {
            if adjusted == 0 {
                lemma_page_rem(ptr as int, ps);
                lemma_unit_aligned(ptr as int, ps, align, ps);
            } else {
                let class = spec_chunk_size(adjusted, ps);
                crate::region::lemma_class_size(class, ps);
                lemma_unit_aligned(ptr as int, class, align, ps);
            }
        }
    }
}

/// Where memory for a key lies in its pages: as near to their end as a
/// multiple of `MIN_ALIGN` allows, which is a multiple of the alignment
/// asked for, with all its bytes before the end.
pub proof fn lemma_key_place(page_size: usize, size: usize, align: usize, ptr: usize)
    requires
        valid_page_size(page_size),
        valid_align(align, page_size),
        align_fault(align, size, page_size) is None,
        ({
            let adjusted = spec_align_to_size(align, size, page_size).unwrap();
            let region = page_ceil(adjusted as int, page_size);
            &&& adjusted + page_size - 1 <= usize::MAX
            &&& page_base(ptr, page_size) + region + page_size <= usize::MAX
            &&& ptr - page_base(ptr, page_size) == placement(
                adjusted,
                region as usize,
                0,
                RangePos::End,
                0,
            )
        }),
    ensures
        ({
            let adjusted = spec_align_to_size(align, size, page_size).unwrap();
            &&& ptr + adjusted <= page_base(ptr, page_size) + page_ceil(adjusted as int, page_size)
            &&& ptr + adjusted <= usize::MAX
            &&& adjusted <= page_size / 2 ==> page_rem(ptr as int, page_size) + size <= page_size
            &&& align == 0 || (ptr as int) % (align as int) == 0
        }),
{
    let ps = page_size;
    let adjusted = spec_align_to_size(align, size, ps).unwrap();
    let base = page_base(ptr, ps);
    lemma_pow2_from(1, size as nat);
    lemma_end_place(ps, adjusted, ptr);
    if align != 0 {
        if align < MIN_ALIGN {
            lemma_low_aligned(ptr as int, align, ps);
        } else {
            lemma_adjusted_shape(ps, size, align);
            lemma_page_base(ptr, ps);
            if adjusted >= ps {
                lemma_full_pages(ps, adjusted, ptr);
                lemma_unit_aligned(ptr as int, ps, align, ps);
            } else {
                lemma_last_place(ps, adjusted, ptr);
                lemma_below_end(base as int, adjusted, ps);
                lemma_unit_aligned(ptr as int, adjusted, align, ps);
            }
        }
    }
}

/// Memory placed at the end of its pages lies inside them, at a multiple
/// of `MIN_ALIGN`.
pub proof fn lemma_end_place(page_size: usize, size: usize, ptr: usize)
    requires
        valid_page_size(page_size),
        size + page_size - 1 <= usize::MAX,
        ptr - page_base(ptr, page_size) == placement(
            size,
            page_ceil(size as int, page_size) as usize,
            0,
            RangePos::End,
            0,
        ),
        page_base(ptr, page_size) + page_ceil(size as int, page_size) + page_size <= usize::MAX,
    ensures
        ptr + size <= page_base(ptr, page_size) + page_ceil(size as int, page_size),
        ptr + size <= usize::MAX,
        size <= page_size / 2 ==> page_rem(ptr as int, page_size) + size <= page_size,
        (ptr as int) % 16 == 0,
{
    let base = page_base(ptr, page_size);
    let region = page_ceil(size as int, page_size);
    let room = region - size;
    lemma_page_base(ptr, page_size);
    crate::mmap::lemma_page_ceil(size, page_size);
    assert(crate::mmap::placement_align(0, RangePos::End) == 16);
    assert(ptr == base + (room - room % 16));
    assert(base as int % 16 == 0) by {
        lemma_page_rem(base as int, page_size);
        lemma_multiple(base as int, page_size as int, 16, page_size as int / 16);
    }
    lemma_end_offset(base as int, room);
    assert(size <= page_size / 2 ==> page_rem(ptr as int, page_size) + size <= page_size) by {
        lemma_page_rem(ptr as int, page_size);
        if 0 < size <= page_size / 2 {
            lemma_page_rem(size as int, page_size);
            assert(region == page_size);
        }
    }
}

/// Rounding an offset down to a multiple of `MIN_ALIGN` from a base that is
/// one gives a multiple of it.
pub proof fn lemma_end_offset(base: int, room: int)
    requires
        base % 16 == 0,
        room >= 0,
    ensures
        0 <= room - room % 16 <= room,
        (base + (room - room % 16)) % 16 == 0,
{
    vstd::arithmetic::div_mod::lemma_fundamental_div_mod(room, 16);
    lemma_sum_of_multiples(base, room / 16, 16);
}

/// A multiple of `MIN_ALIGN` is a multiple of every lesser alignment.
pub proof fn lemma_low_aligned(ptr: int, align: usize, page_size: usize)
    requires
        valid_page_size(page_size),
        is_pow2_below(align, page_size),
        align < MIN_ALIGN,
        ptr % 16 == 0,
    ensures
        ptr % (align as int) == 0,
{
    assert(align == 1 || align == 2 || align == 4 || align == 8);
    if align == 2 {
        lemma_multiple(ptr, 16, 2, 8);
    } else if align == 4 {
        lemma_multiple(ptr, 16, 4, 4);
    } else if align == 8 {
        lemma_multiple(ptr, 16, 8, 2);
    }
}

/// The size that an alignment of `MIN_ALIGN` or more makes of a request is
/// a power of two: one below the page size, or a multiple of it.
pub proof fn lemma_adjusted_shape(page_size: usize, size: usize, align: usize)
    requires
        valid_page_size(page_size),
        is_pow2_below(align, page_size),
        align >= MIN_ALIGN,
        align_fault(align, size, page_size) is None,
    ensures
        ({
            let adjusted = spec_align_to_size(align, size, page_size).unwrap();
            &&& adjusted >= align
            &&& adjusted % 16 == 0
            &&& adjusted < page_size ==> is_pow2_below(adjusted, page_size)
            &&& adjusted >= page_size ==> page_rem(adjusted as int, page_size) == 0
        }),
{
    let p = spec_next_power_of_two(size as nat);
    lemma_pow2_shape(size as nat);
    lemma_shape_page(align, page_size);
    if p > align {
        lemma_shape_page(p as usize, page_size);
    }
}

/// One of 1, 2, 4, ..., 65536, or a multiple of 65536.
pub open spec fn pow2_shaped(p: int) -> bool {
    if p <= 65536 {
        p == 1 || p == 2 || p == 4 || p == 8 || p == 16 || p == 32 || p == 64 || p == 128 || p
            == 256 || p == 512 || p == 1024 || p == 2048 || p == 4096 || p == 8192 || p == 16384
            || p == 32768 || p == 65536
    } else {
        p % 65536 == 0
    }
}

/// A power of two from `MIN_ALIGN` on is a multiple of `MIN_ALIGN`, and a
/// power of two below the page size or a multiple of it.
pub proof fn lemma_shape_page(p: usize, page_size: usize)
    requires
        valid_page_size(page_size),
        pow2_shaped(p as int) || is_pow2_below(p, page_size),
        p >= 16,
    ensures
        p % 16 == 0,
        p < page_size ==> is_pow2_below(p, page_size),
        p >= page_size ==> page_rem(p as int, page_size) == 0,
{
    if p > 65536 {
        lemma_multiple(p as int, 65536, 16, 4096);
        lemma_multiple(p as int, 65536, page_size as int, 65536int / (page_size as int));
        lemma_page_rem(p as int, page_size);
    } else if page_size == 4096 {
        assert(p < page_size ==> is_pow2_below(p, page_size));
    } else if page_size == 8192 {
        assert(p < page_size ==> is_pow2_below(p, page_size));
    } else if page_size == 16384 {
        assert(p < page_size ==> is_pow2_below(p, page_size));
    } else if page_size == 32768 {
        assert(p < page_size ==> is_pow2_below(p, page_size));
    } else {
        assert(p < page_size ==> is_pow2_below(p, page_size));
    }
}

/// Memory of whole pages placed at their end starts them.
pub proof fn lemma_full_pages(page_size: usize, size: usize, ptr: usize)
    requires
        valid_page_size(page_size),
        page_rem(size as int, page_size) == 0,
        ptr - page_base(ptr, page_size) == placement(
            size,
            page_ceil(size as int, page_size) as usize,
            0,
            RangePos::End,
            0,
        ),
    ensures
        ptr == page_base(ptr, page_size),
        page_rem(ptr as int, page_size) == 0,
{
    lemma_page_base(ptr, page_size);
}

/// Memory of less than a page whose size is a multiple of `MIN_ALIGN`,
/// placed at the end of its page, ends with the page.
pub proof fn lemma_last_place(page_size: usize, size: usize, ptr: usize)
    requires
        valid_page_size(page_size),
        0 < size < page_size,
        size % 16 == 0,
        ptr - page_base(ptr, page_size) == placement(
            size,
            page_ceil(size as int, page_size) as usize,
            0,
            RangePos::End,
            0,
        ),
    ensures
        ptr == page_base(ptr, page_size) + page_size - size,
        page_rem(page_base(ptr, page_size) as int, page_size) == 0,
{
    lemma_page_base(ptr, page_size);
    lemma_page_rem(size as int, page_size);
    crate::mmap::lemma_page_ceil(size, page_size);
    assert(page_ceil(size as int, page_size) == page_size);
    let room = page_size as int - size as int;
    assert(crate::mmap::placement_align(0, RangePos::End) == 16);
    assert((page_size as int) % 16 == 0);
    assert((size as int) % 16 == 0);
    let pages = page_size as int / 16;
    let units = size as int / 16;
    assert(room == (pages - units) * 16);
    vstd::arithmetic::div_mod::lemma_mod_multiples_basic(pages - units, 16);
}

/// A power of two below the page size divides every address that lies so
/// many bytes before the end of a page.
pub proof fn lemma_below_end(base: int, unit: usize, page_size: usize)
    requires
        valid_page_size(page_size),
        is_pow2_below(unit, page_size),
        page_rem(base, page_size) == 0,
    ensures
        (base + page_size - unit) % (unit as int) == 0,
{
    let u = unit as int;
    let ps = page_size as int;
    lemma_page_rem(base, page_size);
    let t = ps / u;
    assert(ps == u * t && t > 0) by (nonlinear_arith)
        requires
            is_pow2_below(unit, page_size),
            valid_page_size(page_size),
            t == ps / u,
            u == unit,
            ps == page_size,
    ;
    lemma_multiple(base, ps, u, t);
    lemma_sum_of_multiples(base, t - 1, u);
    assert(base + (t - 1) * u == base + ps - u) by (nonlinear_arith)
        requires
            ps == u * t,
    ;
}

/// A request of up to four pages with a valid alignment is served: it is
/// answered with the pages it needs, or, with pages handed in that it
/// asked for and that the directory accepts, with memory that is not null.
/// It is refused only for pages that were not asked for or are not
/// accepted. The pages it asks for are to be readable and writable, and
/// hold the bytes asked for.
pub proof fn lemma_malloc_serves(
    before: DirView,
    after: DirView,
    r: Result<AllocStep, Fault>,
    size: usize,
    align: usize,
    mapped: Option<usize>,
)
    requires
        before.sound(),
        valid_align(align, before.page_size),
        size <= 4 * before.page_size,
        malloc_outcome(before, after, r, size, align, false, false, mapped),
    ensures
        align_fault(align, size, before.page_size) is None,
        ({
            let adjusted = spec_align_to_size(align, size, before.page_size).unwrap();
            let request = before.map_request(adjusted, false, false);
            &&& mapped is None ==> r is Ok
            &&& r matches Err(fault) ==> fault == Fault::Mapping && mapped is Some && (request is None
                || !before.accepts(request.unwrap(), mapped.unwrap()))
            &&& r matches Ok(AllocStep::NeedMap(asked)) ==> mapped is None && request == Some(asked)
                && asked.prot == Prot::ReadWrite && asked.size >= size
            &&& r matches Ok(AllocStep::Done { ptr, effects }) ==> ptr != 0
        }),
{
    let ps = before.page_size;
    lemma_sound_sizes(before);
    crate::state::lemma_table_room(before);
    lemma_pow2_from(1, size as nat);
    lemma_next_power_of_two(size as nat, 4 * ps as nat);
    assert(align_fault(align, size, ps) is None);
    let adjusted = spec_align_to_size(align, size, ps).unwrap();
    assert(adjusted <= 4 * ps);
    crate::mmap::lemma_page_ceil(adjusted, ps);
    assert(mappable(adjusted, ps));
}

/// The least power of two not below `n` is not above a power of two that
/// is not below `n`.
pub proof fn lemma_next_power_of_two(n: nat, bound: nat)
    requires
        n <= bound,
        bound == 16384 || bound == 32768 || bound == 65536 || bound == 131072 || bound == 262144,
    ensures
        spec_next_power_of_two(n) <= bound,
{
    reveal_with_fuel(pow2_from, 20);
}

/// Changing the protection of memory changes nothing in the directory:
/// asking twice asks the same thing twice, and what is asked for is the
/// protection on the whole of the object at `ptr`.
pub proof fn lemma_protect_again(state: DirView, ptr: usize, prot: Prot)
    requires
        state.protect_fault(ptr) is None,
        ptr != 0,
    ensures
        state.protect_effects(ptr, prot) == seq![
            Effect::Protect { ptr, size: state.regions[state.page_of(ptr)].size, prot },
        ],
{
}

} // verus!
