//! The allocators a container can be backed by: the same directory, asked
//! in the ways that suit a buffer and a key.
use vstd::prelude::*;
use crate::state::AllocStep;
use crate::fault::Fault;
use crate::malloc::{
    free, malloc, malloc_key, malloc_outcome, protect_none, protect_read, protect_write, ThreadDir,
};
use crate::mmap::Prot;
use crate::region::Effect;

verus! {

/// An allocator on a thread's directory.
pub trait Allocator {
    /// Asks for `size` bytes at a multiple of `align`. Where pages have
    /// to be mapped first the request is to be repeated with their
    /// address.
    fn allocate(dir: &mut ThreadDir, size: usize, align: usize, mapped: Option<usize>) -> (r: Result<
        AllocStep,
        Fault,
    >)
        requires
            old(dir).wf(),
        ensures
            final(dir).wf(),
            final(dir).anchored_as(*old(dir)),
            align != 0 && r is Ok ==> (r.unwrap() matches AllocStep::Done { ptr, effects } ==> ptr as int
                % align as int == 0),
    ;

    /// Gives back the `size` bytes at `ptr` that were asked for with
    /// `align`.
    fn deallocate(dir: &mut ThreadDir, ptr: usize, size: usize, align: usize) -> (r: Result<
        Vec<Effect>,
        Fault,
    >)
        requires
            old(dir).wf(),
        ensures
            final(dir).wf(),
            final(dir).anchored_as(*old(dir)),
    ;
}

/// An allocator whose memory can have its protection changed.
pub trait KeyAllocator: Allocator {
    /// Asks for the `size` bytes at `ptr` to become read-only.
    fn protect_read(dir: &mut ThreadDir, ptr: usize, size: usize) -> (r: Result<Vec<Effect>, Fault>)
        requires
            old(dir).wf(),
        ensures
            final(dir).wf(),
            final(dir).anchored_as(*old(dir)),
    ;

    /// Asks for the `size` bytes at `ptr` to become write-only. On most
    /// hardware that allows reading too.
    fn protect_write(dir: &mut ThreadDir, ptr: usize, size: usize) -> (r: Result<Vec<Effect>, Fault>)
        requires
            old(dir).wf(),
        ensures
            final(dir).wf(),
            final(dir).anchored_as(*old(dir)),
    ;

    /// Asks for the `size` bytes at `ptr` to lose all access.
    fn protect_none(dir: &mut ThreadDir, ptr: usize, size: usize) -> (r: Result<Vec<Effect>, Fault>)
        requires
            old(dir).wf(),
        ensures
            final(dir).wf(),
            final(dir).anchored_as(*old(dir)),
    ;
}

/// Default buffer allocator.
pub type DefaultBufferAllocator = ProtectedBufferAllocator;

/// Default key allocator.
pub type DefaultKeyAllocator = ProtectedKeyAllocator;

/// The allocator for buffers: memory between guard pages, small requests
/// in chunks, all of it wiped on release.
#[derive(Clone, Copy, Debug)]
pub struct ProtectedBufferAllocator;

impl Allocator for ProtectedBufferAllocator {
    fn allocate(dir: &mut ThreadDir, size: usize, align: usize, mapped: Option<usize>) -> (r: Result<
        AllocStep,
        Fault,
    >)
        ensures
            malloc_outcome(old(dir)@, final(dir)@, r, size, align, false, false, mapped),
    {
        malloc(dir, size, align, mapped)
    }

    fn deallocate(dir: &mut ThreadDir, ptr: usize, size: usize, align: usize) -> (r: Result<
        Vec<Effect>,
        Fault,
    >)
        ensures
            old(dir)@.dealloc_outcome(final(dir)@, r, ptr),
    {
        free(dir, ptr)
    }
}

/// The allocator for keys: like `ProtectedBufferAllocator`, but every
/// allocation has pages of its own, whose protection can be changed.
#[derive(Clone, Copy, Debug)]
pub struct ProtectedKeyAllocator;

impl Allocator for ProtectedKeyAllocator {
    fn allocate(dir: &mut ThreadDir, size: usize, align: usize, mapped: Option<usize>) -> (r: Result<
        AllocStep,
        Fault,
    >)
        ensures
            malloc_outcome(old(dir)@, final(dir)@, r, size, align, false, true, mapped),
    {
        malloc_key(dir, size, align, mapped)
    }

    fn deallocate(dir: &mut ThreadDir, ptr: usize, size: usize, align: usize) -> (r: Result<
        Vec<Effect>,
        Fault,
    >)
        ensures
            old(dir)@.dealloc_outcome(final(dir)@, r, ptr),
    {
        free(dir, ptr)
    }
}

impl KeyAllocator for ProtectedKeyAllocator {
    fn protect_read(dir: &mut ThreadDir, ptr: usize, size: usize) -> (r: Result<Vec<Effect>, Fault>)
        ensures
            old(dir)@.protect_outcome(final(dir)@, r, ptr, Prot::Read),
    {
        protect_read(dir, ptr)
    }

    fn protect_write(dir: &mut ThreadDir, ptr: usize, size: usize) -> (r: Result<Vec<Effect>, Fault>)
        ensures
            old(dir)@.protect_outcome(final(dir)@, r, ptr, Prot::Write),
    {
        protect_write(dir, ptr)
    }

    fn protect_none(dir: &mut ThreadDir, ptr: usize, size: usize) -> (r: Result<Vec<Effect>, Fault>)
        ensures
            old(dir)@.protect_outcome(final(dir)@, r, ptr, Prot::NoAccess),
    {
        protect_none(dir, ptr)
    }
}

} // verus!
