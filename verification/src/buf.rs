//! The protected buffer: a fixed number of elements behind one owner.
use vstd::prelude::*;
use crate::element::Element;
use crate::key::ProtKey;
use crate::utils;

verus! {

/// Buffer of bytes.
pub type ProtBuf8 = ProtBuf<u8>;

/// A buffer of fixed length for sensitive data. Its elements can always be
/// read and written; see `ProtKey` for tighter control.
pub struct ProtBuf<T: Element> {
    data: Vec<T>,
}

impl<T: Element> View for ProtBuf<T> {
    type V = Seq<T>;

    /// The elements.
    closed spec fn view(&self) -> Seq<T> {
        self.data@
    }
}

/// Whether the machine word holds the byte size of `length` elements.
pub open spec fn fits<T: Element>(length: int) -> bool {
    length * T::spec_width() <= usize::MAX
}

/// The sequences of `parts`, one after the other.
pub open spec fn concat<T>(parts: Seq<Seq<T>>) -> Seq<T>
    decreases parts.len(),
{
    if parts.len() == 0 {
        Seq::empty()
    } else {
        concat(parts.drop_last()) + parts.last()
    }
}

/// The bytes of `elements`, element after element.
pub open spec fn spelt<T: Element>(elements: Seq<T>) -> Seq<u8> {
    concat(elements.map_values(|e: T| e.spec_spell()))
}

/// The bytes of `length` elements are `length` times as many as an
/// element takes.
pub proof fn lemma_spelt_len<T: Element>(elements: Seq<T>)
    ensures
        spelt(elements).len() == elements.len() * T::spec_width(),
    decreases elements.len(),
{
    let parts = elements.map_values(|e: T| e.spec_spell());
    if elements.len() > 0 {
        let w = T::spec_width() as int;
        let n = elements.len() as int;
        lemma_spelt_len(elements.drop_last());
        assert(parts.drop_last() =~= elements.drop_last().map_values(|e: T| e.spec_spell()));
        assert(parts.last() == elements.last().spec_spell());
        elements.last().lemma_spell();
        assert(concat(parts) == concat(parts.drop_last()) + parts.last());
        assert(concat(parts.drop_last()).len() == (n - 1) * w);
        assert((n - 1) * w + w == n * w) by (nonlinear_arith);
    } else {
        assert(concat(parts).len() == 0);
        assert(elements.len() * T::spec_width() == 0) by (nonlinear_arith)
            requires
                elements.len() == 0,
        ;
    }
}

/// The elements spelt by `bytes`, `T::spec_width()` bytes each.
pub open spec fn assembled<T: Element>(bytes: Seq<u8>, length: nat) -> Seq<T> {
    Seq::new(
        length,
        |i: int| T::spec_assemble(bytes.subrange(i * T::spec_width(), (i + 1) * T::spec_width())),
    )
}

/// Whether bytes that are `bytes_size` many and aligned to `align` can be
/// read as elements of `dst_size` bytes that are aligned to `dst_align`:
/// there are bytes, the alignments are the same, and the bytes make a whole
/// number of elements.
pub open spec fn spec_cast_len(bytes_size: usize, align: usize, dst_size: usize, dst_align: usize) -> Option<
    usize,
> {
    if bytes_size > 0 && dst_size > 0 && align == dst_align && bytes_size as int % dst_size as int
        == 0 {
        Some((bytes_size as int / dst_size as int) as usize)
    } else {
        None
    }
}

/// The number of elements of `dst_size` bytes, aligned to `dst_align`, that
/// `bytes_size` bytes aligned to `align` can be read as, if they can.
pub fn cast_len(bytes_size: usize, align: usize, dst_size: usize, dst_align: usize) -> (len: Option<
    usize,
>)
    ensures
        len == spec_cast_len(bytes_size, align, dst_size, dst_align),
{
    if bytes_size == 0 || dst_size == 0 || align != dst_align || bytes_size % dst_size != 0 {
        None
    } else {
        Some(bytes_size / dst_size)
    }
}

impl<T: Element> ProtBuf<T> {
    /// The byte size of a buffer fits the machine word.
    #[verifier::type_invariant]
    spec fn inv(self) -> bool {
        fits::<T>(self.data@.len() as int)
    }

    /// The buffer that holds `data`.
    pub fn from_raw_parts(data: Vec<T>) -> (buf: ProtBuf<T>)
        requires
            fits::<T>(data@.len() as int),
        ensures
            buf@ == data@,
    {
        ProtBuf { data }
    }

    /// Number of elements.
    pub fn len(&self) -> (len: usize)
        ensures
            len == self@.len(),
    {
        self.data.len()
    }

    /// Number of bytes the elements take.
    pub fn len_bytes(&self) -> (size: usize)
        ensures
            size == self@.len() * T::spec_width(),
    {
        proof {
            use_type_invariant(self);
            T::lemma_width();
        }
        let width = T::width();
        let len = self.data.len();
        assert(len * width <= usize::MAX);
        len * width
    }

    fn with_length(length: usize) -> (buf: ProtBuf<T>)
        requires
            fits::<T>(length as int),
        ensures
            buf@ == Seq::new(length as nat, |i: int| T::spec_zero()),
    {
        let mut data: Vec<T> = Vec::new();
        let mut i: usize = 0;
        while i < length
            invariant
                i <= length,
                data@ == Seq::new(i as nat, |j: int| T::spec_zero()),
            decreases length - i,
        {
            data.push(T::zero());
            i += 1;
            assert(data@ =~= Seq::new(i as nat, |j: int| T::spec_zero()));
        }
        ProtBuf { data }
    }

    /// A buffer of `length` elements. Its elements are not meant to be
    /// read before they are written; they are zero.
    pub fn new(length: usize) -> (buf: ProtBuf<T>)
        requires
            fits::<T>(length as int),
        ensures
            buf@ == Seq::new(length as nat, |i: int| T::spec_zero()),
    {
        ProtBuf::with_length(length)
    }

    /// A buffer of `length` zero elements.
    pub fn new_zero(length: usize) -> (buf: ProtBuf<T>)
        requires
            fits::<T>(length as int),
        ensures
            buf@ == Seq::new(length as nat, |i: int| T::spec_zero()),
    {
        ProtBuf::with_length(length)
    }

    /// A buffer of `length` elements spelt by the bytes of `random`, which
    /// are as many as the buffer takes.
    pub fn new_rand(length: usize, random: &[u8]) -> (buf: ProtBuf<T>)
        requires
            random@.len() == length * T::spec_width(),
        ensures
            buf@ == assembled::<T>(random@, length as nat),
    {
        proof {
            T::lemma_width();
        }
        let width = T::width();
        let size = random.len();
        let mut data: Vec<T> = Vec::new();
        let mut i: usize = 0;
        while i < length
            invariant
                i <= length,
                width == T::spec_width(),
                1 <= width <= 16,
                size == random@.len(),
                random@.len() == length * width,
                data@ == assembled::<T>(random@, i as nat),
            decreases length - i,
        {
            assert(i * width + width <= length * width) by (nonlinear_arith)
                requires
                    i < length,
                    width >= 1,
            ;
            assert((i + 1) * width == i * width + width) by (nonlinear_arith);
            data.push(T::assemble(random, i * width));
            i += 1;
            assert(data@ =~= assembled::<T>(random@, i as nat));
        }
        ProtBuf { data }
    }

    /// A buffer of `length` elements spelt by bytes drawn from the
    /// operating system; `None` if that has none to give. The buffer of no
    /// elements is always had.
    pub fn new_rand_os(length: usize) -> (made: Option<ProtBuf<T>>)
        requires
            fits::<T>(length as int),
        ensures
            made matches Some(buf) ==> buf@.len() == length && exists|random: Seq<u8>|
                random.len() == length * T::spec_width() && buf@ == #[trigger] assembled::<T>(
                    random,
                    length as nat,
                ),
            length == 0 ==> made is Some,
    {
        proof {
            T::lemma_width();
        }
        match utils::os_random_bytes(length * T::width()) {
            Some(random) => {
                let buf = ProtBuf::new_rand(length, random.as_slice());
                assert(buf@ == assembled::<T>(random@, length as nat));
                Some(buf)
            },
            None => None,
        }
    }

    /// A buffer with the elements of `values`.
    pub fn from_slice(values: &[T]) -> (buf: ProtBuf<T>)
        requires
            fits::<T>(values@.len() as int),
        ensures
            buf@ == values@,
    {
        let mut data: Vec<T> = Vec::new();
        let mut i: usize = 0;
        while i < values.len()
            invariant
                i <= values@.len(),
                data@ == values@.take(i as int),
            decreases values@.len() - i,
        {
            data.push(values[i]);
            i += 1;
            assert(data@ =~= values@.take(i as int));
        }
        assert(values@.take(values@.len() as int) =~= values@);
        ProtBuf { data }
    }

    /// A buffer with the elements of the slices of `items`, one slice
    /// after the other.
    pub fn from_slices(items: &[&[T]]) -> (buf: ProtBuf<T>)
        requires
            fits::<T>(concat(items@.map_values(|s: &[T]| s@)).len() as int),
        ensures
            buf@ == concat(items@.map_values(|s: &[T]| s@)),
    {
        let ghost parts = items@.map_values(|s: &[T]| s@);
        let mut data: Vec<T> = Vec::new();
        let mut k: usize = 0;
        proof {
            assert(parts.take(0) =~= Seq::<Seq<T>>::empty());
        }
        while k < items.len()
            invariant
                k <= items@.len(),
                parts == items@.map_values(|s: &[T]| s@),
                data@ == concat(parts.take(k as int)),
            decreases items@.len() - k,
        {
            let part = items[k];
            let ghost done = data@;
            let mut i: usize = 0;
            while i < part.len()
                invariant
                    i <= part@.len(),
                    data@ == done + part@.take(i as int),
                decreases part@.len() - i,
            {
                data.push(part[i]);
                i += 1;
                assert(data@ =~= done + part@.take(i as int));
            }
            proof {
                assert(part@.take(part@.len() as int) =~= part@);
                assert(parts.take(k + 1).drop_last() =~= parts.take(k as int));
                assert(parts.take(k + 1).last() == part@);
            }
            k += 1;
        }
        proof {
            assert(parts.take(items@.len() as int) =~= parts);
        }
        ProtBuf { data }
    }

    /// A buffer with the elements of the buffers of `items`, one buffer
    /// after the other.
    pub fn from_bufs(items: &[&ProtBuf<T>]) -> (buf: ProtBuf<T>)
        requires
            fits::<T>(concat(items@.map_values(|b: &ProtBuf<T>| b@)).len() as int),
        ensures
            buf@ == concat(items@.map_values(|b: &ProtBuf<T>| b@)),
    {
        let ghost parts = items@.map_values(|b: &ProtBuf<T>| b@);
        let mut data: Vec<T> = Vec::new();
        let mut k: usize = 0;
        proof {
            assert(parts.take(0) =~= Seq::<Seq<T>>::empty());
        }
        while k < items.len()
            invariant
                k <= items@.len(),
                parts == items@.map_values(|b: &ProtBuf<T>| b@),
                data@ == concat(parts.take(k as int)),
            decreases items@.len() - k,
        {
            let part = items[k].as_slice();
            let ghost done = data@;
            let mut i: usize = 0;
            while i < part.len()
                invariant
                    i <= part@.len(),
                    data@ == done + part@.take(i as int),
                decreases part@.len() - i,
            {
                data.push(part[i]);
                i += 1;
                assert(data@ =~= done + part@.take(i as int));
            }
            proof {
                assert(part@.take(part@.len() as int) =~= part@);
                assert(parts.take(k + 1).drop_last() =~= parts.take(k as int));
                assert(parts.take(k + 1).last() == part@);
            }
            k += 1;
        }
        proof {
            assert(parts.take(items@.len() as int) =~= parts);
        }
        ProtBuf { data }
    }

    /// A buffer with the elements that have the values of `bytes`.
    pub fn from_bytes(bytes: &[u8]) -> (buf: ProtBuf<T>)
        requires
            fits::<T>(bytes@.len() as int),
        ensures
            buf@ == bytes@.map_values(|b: u8| T::spec_from_u8(b)),
    {
        let mut data: Vec<T> = Vec::new();
        let mut i: usize = 0;
        while i < bytes.len()
            invariant
                i <= bytes@.len(),
                data@ == bytes@.take(i as int).map_values(|b: u8| T::spec_from_u8(b)),
            decreases bytes@.len() - i,
        {
            data.push(T::from_u8(bytes[i]));
            i += 1;
            assert(data@ =~= bytes@.take(i as int).map_values(|b: u8| T::spec_from_u8(b)));
        }
        assert(bytes@.take(bytes@.len() as int) =~= bytes@);
        ProtBuf { data }
    }

    /// The elements.
    pub fn as_slice(&self) -> (slice: &[T])
        ensures
            slice@ == self@,
    {
        self.data.as_slice()
    }

    /// The element at `index`.
    pub fn get(&self, index: usize) -> (value: T)
        requires
            index < self@.len(),
        ensures
            value == self@[index as int],
    {
        self.data[index]
    }

    /// Writes `value` at `index`.
    pub fn set(&mut self, index: usize, value: T)
        requires
            index < old(self)@.len(),
        ensures
            final(self)@ == old(self)@.update(index as int, value),
        no_unwind
    {
        proof {
            use_type_invariant(&*self);
        }
        self.data[index] = value;
    }

    /// Whether the bytes of a buffer of `length` elements can be read as
    /// elements of `U`: the buffer is not empty, `U` is aligned like `T`,
    /// and the bytes make a whole number of elements of `U`.
    pub open spec fn casts_to<U: Element>(length: nat) -> bool {
        &&& length > 0
        &&& T::spec_align() == U::spec_align()
        &&& (length * T::spec_width()) % (U::spec_width() as int) == 0
    }

    /// The bytes of the buffer, least significant byte of each element
    /// first, as a buffer of elements of `U`; `None` if they cannot be read
    /// so.
    pub fn cast<U: Element>(&self) -> (cast: Option<ProtBuf<U>>)
        ensures
            cast is Some <==> Self::casts_to::<U>(self@.len()),
            cast matches Some(buf) ==> buf@ == assembled::<U>(
                spelt(self@),
                (self@.len() * T::spec_width() / (U::spec_width() as int)) as nat,
            ),
    {
        proof {
            T::lemma_width();
            U::lemma_width();
        }
        let bytes_size = self.len_bytes();
        let dst_type_size = U::width();
        let len = match cast_len(bytes_size, T::align(), dst_type_size, U::align()) {
            Some(len) => len,
            None => {
                proof {
                    assert(self@.len() > 0 ==> bytes_size > 0) by (nonlinear_arith)
                        requires
                            bytes_size == self@.len() * T::spec_width(),
                            T::spec_width() >= 1,
                    ;
                }
                return None;
            },
        };
        let mut bytes: Vec<u8> = Vec::new();
        let mut i: usize = 0;
        proof {
            assert(self.data@.take(0).map_values(|e: T| e.spec_spell()) =~= Seq::<
                Seq<u8>,
            >::empty());
        }
        while i < self.data.len()
            invariant
                i <= self.data@.len(),
                bytes@ == spelt(self.data@.take(i as int)),
            decreases self.data@.len() - i,
        {
            let ghost done = self.data@.take(i as int).map_values(|e: T| e.spec_spell());
            let ghost next = self.data@.take(i + 1).map_values(|e: T| e.spec_spell());
            self.data[i].spell(&mut bytes);
            proof {
                assert(next.drop_last() =~= done);
                assert(next.last() == self.data@[i as int].spec_spell());
            }
            i += 1;
        }
        proof {
            assert(self.data@.take(self.data@.len() as int) =~= self.data@);
            lemma_spelt_len(self.data@);
            assert(bytes_size / dst_type_size * dst_type_size == bytes_size) by (nonlinear_arith)
                requires
                    bytes_size % dst_type_size == 0,
                    dst_type_size > 0,
            ;
        }
        Some(ProtBuf::new_rand(len, bytes.as_slice()))
    }

    /// Turns the buffer into a key.
    pub fn into_key(self) -> (key: ProtKey<T>)
        ensures
            key@ == crate::key::fresh_key(self@),
    {
        ProtKey::new(self)
    }
}

impl<T: Element> Clone for ProtBuf<T> {
    /// A buffer of its own with the same elements.
    fn clone(&self) -> (copy: ProtBuf<T>)
        ensures
            copy@ == self@,
    {
        proof {
            use_type_invariant(self);
        }
        ProtBuf::from_slice(self.as_slice())
    }
}

impl<T: Element> PartialEq for ProtBuf<T> {
    /// Whether the two buffers hold the same elements, found out in time
    /// that depends on their lengths alone.
    fn eq(&self, other: &ProtBuf<T>) -> (equal: bool) {
        utils::bytes_eq(self.as_slice(), other.as_slice())
    }
}

impl<T: Element> vstd::std_specs::cmp::PartialEqSpecImpl for ProtBuf<T> {
    open spec fn obeys_eq_spec() -> bool {
        true
    }

    open spec fn eq_spec(&self, other: &ProtBuf<T>) -> bool {
        self@ == other@
    }
}

} // verus!
