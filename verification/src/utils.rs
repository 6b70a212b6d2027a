//! Constant-time comparison and random draws.
use vstd::prelude::*;
use crate::element::Element;

verus! {

/// `1` if `x == y`, `0` otherwise, computed without a branch on the operands.
pub fn byte_eq(x: u8, y: u8) -> (r: u8)
    ensures
        r == if x == y { 1u8 } else { 0u8 },
{
    let mut z: u8 = !(x ^ y);
    z &= z >> 4;
    z &= z >> 2;
    z &= z >> 1;
    assert(({
        let a: u8 = !(x ^ y);
        let b: u8 = a & (a >> 4);
        let c: u8 = b & (b >> 2);
        c & (c >> 1)
    }) == (if x == y { 1u8 } else { 0u8 })) by (bit_vector);
    z
}

/// Compares two strings of elements. The running time depends on the
/// lengths alone: every pair of elements is read whatever the outcome.
pub fn bytes_eq<T: Element>(x: &[T], y: &[T]) -> (r: bool)
    ensures
        r == (x@ == y@),
{
    if x.len() != y.len() {
        return false;
    }
    let size: usize = x.len();
    let mut d: u8 = 0;
    let mut i: usize = 0;
    while i < size
        invariant
            i <= size,
            size == x@.len(),
            size == y@.len(),
            (d == 0) == (forall|j: int| 0 <= j < i ==> x@[j] == y@[j]),
        decreases size - i,
    {
        let e = x[i].diff(y[i]);
        assert(((d | e) == 0) == (d == 0 && e == 0)) by (bit_vector);
        d |= e;
        i += 1;
    }
    assert((d == 0) == (x@ =~= y@));
    byte_eq(d, 0) == 1
}

/// `rand::Rng::gen_range` on the thread-local generator of `rand`, for a
/// half-open range of machine words. The call panics on an empty range, which
/// the precondition leaves out; what comes back lies in the range. The first
/// draw of a thread seeds the generator from the operating system and aborts
/// if that fails.
#[verifier::external_body]
fn thread_gen_range(low: usize, high: usize) -> (r: usize)
    requires
        low < high,
    ensures
        low <= r < high,
{
    rand::Rng::gen_range(&mut rand::thread_rng(), low..high)
}

/// A draw from `low..high` that also takes `low == high`, in which case it
/// is `low`.
pub fn gen_range(low: usize, high: usize) -> (r: usize)
    requires
        low <= high,
    ensures
        low == high ==> r == low,
        low < high ==> low <= r < high,
{
    if low == high {
        return low;
    }
    thread_gen_range(low, high)
}

/// `rand::RngCore::try_fill_bytes` on `rand::rngs::OsRng`: `len` bytes from
/// the operating system's generator, of which only the number is claimed, or
/// `None` on its error. For no bytes it is not asked, so they are always had.
#[verifier::external_body]
fn os_try_fill(len: usize) -> (r: Option<Vec<u8>>)
    ensures
        r matches Some(bytes) ==> bytes@.len() == len,
        len == 0 ==> r is Some,
{
    let mut bytes = vec![0u8; len];
    match rand::RngCore::try_fill_bytes(&mut rand::rngs::OsRng, &mut bytes) {
        Ok(()) => Some(bytes),
        Err(_) => None,
    }
}

/// `len` bytes drawn from the operating system, `None` if it has none to
/// give. No bytes are always had.
pub fn os_random_bytes(len: usize) -> (r: Option<Vec<u8>>)
    ensures
        r matches Some(bytes) ==> bytes@.len() == len,
        len == 0 ==> r is Some,
{
    os_try_fill(len)
}

/// A machine word drawn from the operating system: the word of eight of
/// its bytes, `None` if it has none to give.
pub fn os_random_word() -> (r: Option<usize>)
    ensures
        r matches Some(word) ==> exists|bytes: Seq<u8>|
            bytes.len() == 8 && word == #[trigger] word_of(bytes),
{
    match os_try_fill(8) {
        Some(bytes) => {
            let word = word_of_bytes(bytes.as_slice());
            assert(word == word_of(bytes@));
            Some(word)
        },
        None => None,
    }
}

/// The machine word that eight bytes spell, the least significant first:
/// the number they spell in 64 bits, cut to the width of a word.
pub open spec fn word_of(bytes: Seq<u8>) -> usize {
    vstd::bytes::spec_u64_from_le_bytes(bytes) as usize
}

/// The machine word that `bytes` spell.
pub fn word_of_bytes(bytes: &[u8]) -> (word: usize)
    requires
        bytes@.len() == 8,
    ensures
        word == word_of(bytes@),
{
    #[verifier::truncate]
    (vstd::bytes::u64_from_le_bytes(bytes) as usize)
}

/// `num::ToPrimitive::to_isize` on a machine word: the same number as a
/// signed word where it fits, nothing where it does not.
#[verifier::external_body]
pub(crate) fn to_isize(x: usize) -> (r: Option<isize>)
    ensures
        r == if x <= isize::MAX { Some(x as isize) } else { None::<isize> },
{
    num::ToPrimitive::to_isize(&x)
}

} // verus!
