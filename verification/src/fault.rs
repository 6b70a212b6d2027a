//! The ways an operation on the protected heap can fail.
use vstd::prelude::*;

verus! {

/// Why an operation was refused. Every fault leaves the state it was raised
/// on unchanged; a driver is expected to abort on it.
#[derive(Clone, Copy, Debug, PartialEq, Eq, Structural)]
pub enum Fault {
    /// Size arithmetic left the range of the machine word.
    Overflow,
    /// An alignment that is neither zero nor a power of two below the page
    /// size.
    Alignment,
    /// The mapping handed in is null, misplaced, already registered, or was
    /// not asked for.
    Mapping,
    /// The pointer belongs to no live region.
    UnknownPointer,
    /// The pointer lies in a chunk but not on a slot boundary.
    Misaligned,
    /// The slot the pointer names is already free.
    DoubleFree,
    /// The region found is of a kind the operation does not apply to.
    WrongKind,
}

} // verus!
