//! The element types a protected buffer can hold: plain integers, which are
//! copied bit by bit and need no destructor.
use vstd::prelude::*;
use vstd::pervasive::unreached;
use vstd::bytes::{
    lemma_auto_spec_u64_to_from_le_bytes, spec_u64_from_le_bytes, spec_u64_to_le_bytes,
    u64_from_le_bytes, u64_to_le_bytes,
};
use vstd::slice::slice_subrange;

verus! {

/// An integer type that can sit in a protected buffer.
pub trait Element: Copy + Sized {
    /// Bytes one element takes.
    spec fn spec_width() -> usize;

    /// The element all of whose bytes are zero.
    spec fn spec_zero() -> Self;

    /// The element with the value of the byte `b`.
    spec fn spec_from_u8(b: u8) -> Self;

    /// The element that `bytes`, as many as an element takes, spell.
    spec fn spec_assemble(bytes: Seq<u8>) -> Self;

    /// The bytes of the element, least significant first.
    spec fn spec_spell(self) -> Seq<u8>;

    /// The alignment of the element in memory.
    spec fn spec_align() -> usize;

    /// An element takes at least one byte and at most sixteen.
    proof fn lemma_width()
        ensures
            1 <= Self::spec_width() <= 16,
    ;

    /// An element is spelt by as many bytes as it takes, and they spell
    /// it.
    proof fn lemma_spell(self)
        ensures
            self.spec_spell().len() == Self::spec_width(),
            Self::spec_assemble(self.spec_spell()) == self,
    ;

    fn align() -> (a: usize)
        ensures
            a == Self::spec_align(),
    ;

    /// Appends the bytes of the element to `out`.
    fn spell(self, out: &mut Vec<u8>)
        ensures
            final(out)@ == old(out)@ + self.spec_spell(),
    ;

    fn width() -> (w: usize)
        ensures
            w == Self::spec_width(),
    ;

    fn zero() -> (z: Self)
        ensures
            z == Self::spec_zero(),
    ;

    /// Zero if `self` and `other` are equal. Takes the same time whatever
    /// the two hold.
    fn diff(self, other: Self) -> (d: u8)
        ensures
            (d == 0) == (self == other),
    ;

    fn from_u8(b: u8) -> (e: Self)
        ensures
            e == Self::spec_from_u8(b),
    ;

    /// The element spelt by the bytes of `bytes` from index `at` on.
    fn assemble(bytes: &[u8], at: usize) -> (e: Self)
        requires
            at + Self::spec_width() <= bytes@.len(),
        ensures
            e == Self::spec_assemble(bytes@.subrange(at as int, at as int + Self::spec_width() as int)),
    ;
}

/// `num::FromPrimitive::from_u8` for `u8`: the byte itself.
#[verifier::external_body]
fn u8_from_u8(b: u8) -> (r: Option<u8>)
    ensures
        r == Some(b),
{
    num::FromPrimitive::from_u8(b)
}

/// `num::FromPrimitive::from_u8` for `u64`: the number the byte holds.
#[verifier::external_body]
fn u64_from_u8(b: u8) -> (r: Option<u64>)
    ensures
        r == Some(b as u64),
{
    num::FromPrimitive::from_u8(b)
}

/// `num::FromPrimitive::from_u8` for `i64`: the number the byte holds.
#[verifier::external_body]
fn i64_from_u8(b: u8) -> (r: Option<i64>)
    ensures
        r == Some(b as i64),
{
    num::FromPrimitive::from_u8(b)
}

impl Element for u8 {
    open spec fn spec_width() -> usize {
        1
    }

    open spec fn spec_zero() -> u8 {
        0
    }

    open spec fn spec_from_u8(b: u8) -> u8 {
        b
    }

    open spec fn spec_assemble(bytes: Seq<u8>) -> u8 {
        bytes[0]
    }

    open spec fn spec_spell(self) -> Seq<u8> {
        seq![self]
    }

    open spec fn spec_align() -> usize {
        1
    }

    proof fn lemma_width() {
    }

    proof fn lemma_spell(self) {
    }

    fn align() -> (a: usize) {
        1
    }

    fn spell(self, out: &mut Vec<u8>) {
        out.push(self);
        assert(out@ =~= old(out)@ + seq![self]);
    }

    fn width() -> (w: usize) {
        1
    }

    fn zero() -> (z: u8) {
        0
    }

    fn diff(self, other: u8) -> (d: u8) {
        let d = self ^ other;
        assert(((self ^ other) == 0) == (self == other)) by (bit_vector);
        d
    }

    fn from_u8(b: u8) -> (e: u8) {
        match u8_from_u8(b) {
            Some(e) => e,
            None => unreached(),
        }
    }

    fn assemble(bytes: &[u8], at: usize) -> (e: u8) {
        bytes[at]
    }
}

/// Folds the bits of a word into a byte that is zero if the word is.
fn fold(z: u64) -> (d: u8)
    ensures
        (d == 0) == (z == 0),
{
    let a = z | (z >> 32);
    let b = a | (a >> 16);
    let c = b | (b >> 8);
    let d = (c & 0xff) as u8;
    assert(({
        let a = z | (z >> 32);
        let b = a | (a >> 16);
        let c = b | (b >> 8);
        (c & 0xff) as u8 == 0
    }) == (z == 0)) by (bit_vector);
    d
}

impl Element for u64 {
    open spec fn spec_width() -> usize {
        8
    }

    open spec fn spec_zero() -> u64 {
        0
    }

    open spec fn spec_from_u8(b: u8) -> u64 {
        b as u64
    }

    open spec fn spec_assemble(bytes: Seq<u8>) -> u64 {
        spec_u64_from_le_bytes(bytes)
    }

    open spec fn spec_spell(self) -> Seq<u8> {
        spec_u64_to_le_bytes(self)
    }

    open spec fn spec_align() -> usize {
        8
    }

    proof fn lemma_width() {
    }

    proof fn lemma_spell(self) {
        lemma_auto_spec_u64_to_from_le_bytes();
    }

    fn align() -> (a: usize) {
        8
    }

    fn spell(self, out: &mut Vec<u8>) {
        let mut bytes = u64_to_le_bytes(self);
        out.append(&mut bytes);
    }

    fn width() -> (w: usize) {
        8
    }

    fn zero() -> (z: u64) {
        0
    }

    fn diff(self, other: u64) -> (d: u8) {
        assert(((self ^ other) == 0) == (self == other)) by (bit_vector);
        fold(self ^ other)
    }

    fn from_u8(b: u8) -> (e: u64) {
        match u64_from_u8(b) {
            Some(e) => e,
            None => unreached(),
        }
    }

    fn assemble(bytes: &[u8], at: usize) -> (e: u64) {
        let length = bytes.len();
        assert(at + 8 <= length);
        u64_from_le_bytes(slice_subrange(bytes, at, at + 8))
    }
}

impl Element for i64 {
    open spec fn spec_width() -> usize {
        8
    }

    open spec fn spec_zero() -> i64 {
        0
    }

    open spec fn spec_from_u8(b: u8) -> i64 {
        b as i64
    }

    open spec fn spec_assemble(bytes: Seq<u8>) -> i64 {
        spec_u64_from_le_bytes(bytes) as i64
    }

    open spec fn spec_spell(self) -> Seq<u8> {
        spec_u64_to_le_bytes(self as u64)
    }

    open spec fn spec_align() -> usize {
        8
    }

    proof fn lemma_width() {
    }

    proof fn lemma_spell(self) {
        lemma_auto_spec_u64_to_from_le_bytes();
        assert(((self as u64) as i64) == self) by (bit_vector);
    }

    fn align() -> (a: usize) {
        8
    }

    fn spell(self, out: &mut Vec<u8>) {
        let mut bytes = u64_to_le_bytes(#[verifier::truncate] (self as u64));
        out.append(&mut bytes);
    }

    fn width() -> (w: usize) {
        8
    }

    fn zero() -> (z: i64) {
        0
    }

    fn diff(self, other: i64) -> (d: u8) {
        let x = #[verifier::truncate] (self as u64);
        let y = #[verifier::truncate] (other as u64);
        assert(((self as u64) == (other as u64)) == (self == other)) by (bit_vector);
        assert(((x ^ y) == 0) == (x == y)) by (bit_vector);
        fold(x ^ y)
    }

    fn from_u8(b: u8) -> (e: i64) {
        match i64_from_u8(b) {
            Some(e) => e,
            None => unreached(),
        }
    }

    fn assemble(bytes: &[u8], at: usize) -> (e: i64) {
        let length = bytes.len();
        assert(at + 8 <= length);
        #[verifier::truncate] (u64_from_le_bytes(slice_subrange(bytes, at, at + 8)) as i64)
    }
}

} // verus!
