//! The protected key: a buffer that can only be reached through leases, and
//! whose pages are meant to carry the least protection its leases allow.
use vstd::prelude::*;
use crate::buf::ProtBuf;
use crate::element::Element;
use crate::mmap::Prot;

verus! {

/// Key of bytes.
pub type ProtKey8 = ProtKey<u8>;

/// Who holds the key's buffer.
#[derive(Clone, Copy, Debug, PartialEq, Eq, Structural)]
pub enum Lease {
    /// Nobody.
    Unused,
    /// So many readers, at least one.
    Reading(usize),
    /// One writer.
    Writing,
}

/// The state of a key.
pub struct KeyView<T> {
    /// The elements of the key.
    pub bytes: Seq<T>,
    /// Read leases that are out.
    pub readers: nat,
    /// Whether the write lease is out.
    pub writing: bool,
}

impl<T> KeyView<T> {
    /// The protection the key's pages are meant to have: none while no
    /// lease is out, read while read leases are, write while the write
    /// lease is.
    pub open spec fn prot(self) -> Prot {
        if self.writing {
            Prot::Write
        } else if self.readers > 0 {
            Prot::Read
        } else {
            Prot::NoAccess
        }
    }

    /// Whether a read lease can be had: no writer holds the key.
    pub open spec fn readable(self) -> bool {
        !self.writing
    }

    /// Whether the write lease can be had: nobody holds the key.
    pub open spec fn writable(self) -> bool {
        !self.writing && self.readers == 0
    }

    /// The state with one more reader.
    pub open spec fn read_taken(self) -> KeyView<T> {
        KeyView { readers: self.readers + 1, ..self }
    }

    /// The state with one reader less.
    pub open spec fn read_ended(self) -> KeyView<T> {
        KeyView { readers: if self.readers > 0 { (self.readers - 1) as nat } else { 0 }, ..self }
    }

    /// The state with the writer in.
    pub open spec fn write_taken(self) -> KeyView<T> {
        KeyView { writing: true, ..self }
    }

    /// The state with the writer out.
    pub open spec fn write_ended(self) -> KeyView<T> {
        KeyView { writing: false, ..self }
    }
}

/// Who can take a lease in which state: with no lease out, a reader and a
/// writer can; with a read lease out, another reader can and a writer
/// cannot; with the write lease out, nobody can.
pub proof fn lemma_leases<T>(key: KeyView<T>)
    requires
        !(key.writing && key.readers > 0),
    ensures
        key.readers == 0 && !key.writing ==> key.readable() && key.writable(),
        key.readers > 0 ==> key.readable() && !key.writable(),
        key.writing ==> !key.readable() && !key.writable(),
        key.readable() ==> key.read_taken().readable() && !key.read_taken().writable()
            && key.read_taken().prot() == Prot::Read,
        key.writable() ==> !key.write_taken().writable() && !key.write_taken().readable()
            && key.write_taken().prot() == Prot::Write,
        key.readers == 1 ==> key.read_ended().writable() && key.read_ended().prot()
            == Prot::NoAccess,
        key.readers > 1 ==> key.read_ended().readable() && key.read_ended().prot() == Prot::Read,
        key.writing ==> key.write_ended().writable() && key.write_ended().readable()
            && key.write_ended().prot() == Prot::NoAccess,
{
}

/// The state of a key that has just been made of `bytes`.
pub open spec fn fresh_key<T>(bytes: Seq<T>) -> KeyView<T> {
    KeyView { bytes, readers: 0, writing: false }
}

/// A key. Nothing reads or writes its elements without a lease on it, and a
/// lease is given back by handing it to `end_read` or `end_write`.
pub struct ProtKey<T: Element> {
    key: ProtBuf<T>,
    lease: Lease,
    id: Ghost<int>,
}

/// A read lease. While it is out the key can be read, and not written.
pub struct ProtKeyRead {
    key: Ghost<int>,
}

/// The write lease. While it is out the key can be written, and nothing
/// else can get at it.
pub struct ProtKeyWrite {
    key: Ghost<int>,
}

impl<T: Element> View for ProtKey<T> {
    type V = KeyView<T>;

    closed spec fn view(&self) -> KeyView<T> {
        KeyView {
            bytes: self.key@,
            readers: match self.lease {
                Lease::Reading(n) => n as nat,
                _ => 0,
            },
            writing: self.lease == Lease::Writing,
        }
    }
}

impl ProtKeyRead {
    /// The label of the key that the lease was taken on.
    pub closed spec fn key(&self) -> int {
        self.key@
    }

    /// Another read lease on `key`, which this one is a lease on.
    pub fn clone_it<T: Element>(&self, key: &mut ProtKey<T>) -> (lease: ProtKeyRead)
        requires
            self.key() == old(key).id(),
            old(key)@.readers > 0,
            old(key)@.readers < usize::MAX,
        ensures
            final(key)@ == old(key)@.read_taken(),
            final(key).id() == old(key).id(),
            final(key).spec_buf() == old(key).spec_buf(),
            lease.key() == old(key).id(),
    {
        proof {
            key.lemma_exclusive();
        }
        key.read()
    }
}

impl ProtKeyWrite {
    /// The label of the key that the lease was taken on.
    pub closed spec fn key(&self) -> int {
        self.key@
    }
}

impl<T: Element> ProtKey<T> {
    /// A count of readers is never kept at zero.
    #[verifier::type_invariant]
    spec fn inv(self) -> bool {
        self.lease matches Lease::Reading(n) ==> n > 0
    }

    /// The buffer behind the key.
    pub closed spec fn spec_buf(&self) -> ProtBuf<T> {
        self.key
    }

    /// The label that the key's leases carry. It stays with the key for
    /// as long as the key lives, and a lease is only taken where it can be
    /// seen to carry the label of the key it is handed to.
    pub closed spec fn id(&self) -> int {
        self.id@
    }

    /// `key` is this key with one more read lease out, and `lease` is a
    /// read lease on it.
    pub open spec fn lent(&self, key: ProtKey<T>, lease: ProtKeyRead) -> bool {
        &&& key@ == self@.read_taken()
        &&& key.spec_buf() == self.spec_buf()
        &&& key.id() == self.id()
        &&& lease.key() == self.id()
    }

    /// `key` is this key with the write lease out, and `lease` is that
    /// lease.
    pub open spec fn lent_whole(&self, key: ProtKey<T>, lease: ProtKeyWrite) -> bool {
        &&& key@ == self@.write_taken()
        &&& key.spec_buf() == self.spec_buf()
        &&& key.id() == self.id()
        &&& lease.key() == self.id()
    }

    /// `key` and `lease` are this key and its write lease as a writer may
    /// hand them back: the same key, still under that lease, with as many
    /// elements as before.
    pub open spec fn handed_back(&self, key: ProtKey<T>, lease: ProtKeyWrite) -> bool {
        &&& key.id() == self.id()
        &&& lease.key() == self.id()
        &&& key@.writing
        &&& key@.readers == 0
        &&& key@.bytes.len() == self@.bytes.len()
    }

    /// A writer is never in together with a reader.
    pub proof fn lemma_exclusive(&self)
        ensures
            !(self@.writing && self@.readers > 0),
            self@.bytes == self.spec_buf()@,
    {
    }

    /// Makes `prot_buf` a key. Nobody holds it, so its pages are meant to
    /// lose all access.
    pub fn new(prot_buf: ProtBuf<T>) -> (key: ProtKey<T>)
        ensures
            key@ == fresh_key(prot_buf@),
            key@.prot() == Prot::NoAccess,
            key.spec_buf() == prot_buf,
    {
        ProtKey { key: prot_buf, lease: Lease::Unused, id: Ghost(arbitrary()) }
    }

    /// Makes a key of a copy of `prot_buf`.
    pub fn from_buf(prot_buf: ProtBuf<T>) -> (key: ProtKey<T>)
        ensures
            key@ == fresh_key(prot_buf@),
    {
        ProtKey::new(prot_buf.clone())
    }

    /// Gives the buffer back out of the key, which nobody holds.
    pub fn into_buf(self) -> (buf: ProtBuf<T>)
        requires
            self@.readers == 0,
            !self@.writing,
        ensures
            buf@ == self@.bytes,
            buf == self.spec_buf(),
    {
        self.key
    }

    /// Read leases that are out.
    pub fn readers(&self) -> (n: usize)
        ensures
            n == self@.readers,
    {
        match self.lease {
            Lease::Reading(n) => n,
            _ => 0,
        }
    }

    /// Whether the write lease is out.
    pub fn is_writing(&self) -> (writing: bool)
        ensures
            writing == self@.writing,
    {
        match self.lease {
            Lease::Writing => true,
            _ => false,
        }
    }

    /// The protection the key's pages are meant to have now.
    pub fn protection(&self) -> (prot: Prot)
        ensures
            prot == self@.prot(),
    {
        proof {
            use_type_invariant(self);
        }
        match self.lease {
            Lease::Unused => Prot::NoAccess,
            Lease::Reading(_) => Prot::Read,
            Lease::Writing => Prot::Write,
        }
    }

    /// Takes a read lease. With the first one out the key's pages are
    /// meant to become readable. The count of leases is a machine word,
    /// which has to hold one more.
    pub fn read(&mut self) -> (lease: ProtKeyRead)
        requires
            old(self)@.readable(),
            old(self)@.readers < usize::MAX,
        ensures
            final(self)@ == old(self)@.read_taken(),
            final(self)@.prot() == Prot::Read,
            final(self).spec_buf() == old(self).spec_buf(),
            final(self).id() == old(self).id(),
            lease.key() == old(self).id(),
    {
        let n = self.readers();
        self.lease = Lease::Reading(n + 1);
        ProtKeyRead { key: Ghost(self.id@) }
    }

    /// Takes a read lease unless the key is being written.
    pub fn try_read(&mut self) -> (lease: Option<ProtKeyRead>)
        requires
            old(self)@.readers < usize::MAX,
        ensures
            lease is Some <==> old(self)@.readable(),
            lease matches Some(taken) ==> final(self)@ == old(self)@.read_taken() && taken.key()
                == old(self).id(),
            lease is None ==> final(self)@ == old(self)@,
            final(self).spec_buf() == old(self).spec_buf(),
            final(self).id() == old(self).id(),
    {
        match self.lease {
            Lease::Writing => None,
            _ => Some(self.read()),
        }
    }

    /// Gives back a read lease on this key. With the last one back the
    /// key's pages are meant to lose all access.
    pub fn end_read(&mut self, lease: ProtKeyRead)
        requires
            lease.key() == old(self).id(),
            old(self)@.readers > 0,
        ensures
            final(self)@ == old(self)@.read_ended(),
            final(self).spec_buf() == old(self).spec_buf(),
            final(self).id() == old(self).id(),
    {
        match self.lease {
            Lease::Reading(n) => {
                self.lease = if n > 1 { Lease::Reading(n - 1) } else { Lease::Unused };
            },
            _ => {},
        }
    }

    /// Takes the write lease. The key's pages are meant to become
    /// writable.
    pub fn write(&mut self) -> (lease: ProtKeyWrite)
        requires
            old(self)@.writable(),
        ensures
            final(self)@ == old(self)@.write_taken(),
            final(self)@.prot() == Prot::Write,
            final(self).spec_buf() == old(self).spec_buf(),
            final(self).id() == old(self).id(),
            lease.key() == old(self).id(),
    {
        self.lease = Lease::Writing;
        ProtKeyWrite { key: Ghost(self.id@) }
    }

    /// Takes the write lease if nobody holds the key.
    pub fn try_write(&mut self) -> (lease: Option<ProtKeyWrite>)
        ensures
            lease is Some <==> old(self)@.writable(),
            lease matches Some(taken) ==> final(self)@ == old(self)@.write_taken() && taken.key()
                == old(self).id(),
            lease is None ==> final(self)@ == old(self)@,
            final(self).spec_buf() == old(self).spec_buf(),
            final(self).id() == old(self).id(),
    {
        proof {
            use_type_invariant(&*self);
        }
        match self.lease {
            Lease::Unused => Some(self.write()),
            _ => None,
        }
    }

    /// Gives back the write lease on this key. The key's pages are meant
    /// to lose all access.
    pub fn end_write(&mut self, lease: ProtKeyWrite)
        requires
            lease.key() == old(self).id(),
            old(self)@.writing,
        ensures
            final(self)@ == old(self)@.write_ended(),
            final(self).spec_buf() == old(self).spec_buf(),
            final(self).id() == old(self).id(),
    {
        self.lease = Lease::Unused;
    }

    /// The buffer, for the holder of a read lease on this key.
    pub fn buf(&self, lease: &ProtKeyRead) -> (buf: &ProtBuf<T>)
        requires
            lease.key() == self.id(),
            self@.readers > 0,
        ensures
            buf@ == self@.bytes,
            *buf == self.spec_buf(),
    {
        &self.key
    }

    /// Writes `value` at `index`, for the holder of the write lease on
    /// this key.
    pub fn set(&mut self, lease: &mut ProtKeyWrite, index: usize, value: T)
        requires
            old(lease).key() == old(self).id(),
            old(self)@.writing,
            index < old(self)@.bytes.len(),
        ensures
            final(self)@ == (KeyView {
                bytes: old(self)@.bytes.update(index as int, value),
                ..old(self)@
            }),
            final(self).id() == old(self).id(),
            final(lease).key() == old(lease).key(),
    {
        self.key.set(index, value);
    }

    /// Takes a read lease, hands the key and the lease to `f`, and gives
    /// the lease back. While `f` runs the lease is out: `f` sees the key
    /// with one more reader, and reads it through the lease.
    pub fn read_with<F: FnOnce(&ProtKey<T>, &ProtKeyRead)>(&mut self, f: F)
        requires
            old(self)@.readable(),
            old(self)@.readers < usize::MAX,
            forall|key: ProtKey<T>, lease: ProtKeyRead|
                old(self).lent(key, lease) ==> #[trigger] call_requires(f, (&key, &lease)),
        ensures
            final(self)@ == old(self)@,
            final(self).spec_buf() == old(self).spec_buf(),
            final(self).id() == old(self).id(),
            exists|key: ProtKey<T>, lease: ProtKeyRead|
                old(self).lent(key, lease) && #[trigger] call_ensures(f, (&key, &lease), ()),
    {
        let lease = self.read();
        assert(old(self).lent(*self, lease));
        f(&*self, &lease);
        self.end_read(lease);
    }

    /// Takes the write lease, hands the key and the lease to `f`, and
    /// gives back the lease once `f` has handed both back. While `f` runs
    /// the lease is out: `f` gets the key with the writer in, and writes it
    /// through the lease. What `f` hands back has to be that key, still
    /// under that lease, with as many elements.
    pub fn write_with<F: FnOnce(ProtKey<T>, ProtKeyWrite) -> (ProtKey<T>, ProtKeyWrite)>(
        &mut self,
        f: F,
    )
        requires
            old(self)@.writable(),
            forall|key: ProtKey<T>, lease: ProtKeyWrite|
                old(self).lent_whole(key, lease) ==> #[trigger] call_requires(f, (key, lease)),
            forall|key: ProtKey<T>, lease: ProtKeyWrite, back: (ProtKey<T>, ProtKeyWrite)|
                old(self).lent_whole(key, lease) && #[trigger] call_ensures(f, (key, lease), back)
                    ==> old(self).handed_back(back.0, back.1),
        ensures
            final(self).id() == old(self).id(),
            final(self)@.bytes.len() == old(self)@.bytes.len(),
            final(self)@.writable(),
            exists|key: ProtKey<T>, lease: ProtKeyWrite, back: (ProtKey<T>, ProtKeyWrite)|
                old(self).lent_whole(key, lease) && #[trigger] call_ensures(f, (key, lease), back)
                    && final(self)@ == back.0@.write_ended() && final(self).spec_buf()
                    == back.0.spec_buf(),
    {
        let lease = self.write();
        let mut taken: ProtKey<T> = ProtKey::new(ProtBuf::new(0));
        core::mem::swap(self, &mut taken);
        assert(old(self).lent_whole(taken, lease));
        let (written, lease) = f(taken, lease);
        assert(old(self).handed_back(written, lease));
        *self = written;
        self.end_write(lease);
    }

    /// Whether the two keys hold the same elements, found out under a read
    /// lease on each; `false` if either is being written.
    pub fn equals(&mut self, other: &mut ProtKey<T>) -> (equal: bool)
        requires
            old(self)@.readers < usize::MAX,
            old(other)@.readers < usize::MAX,
        ensures
            equal == (old(self)@.readable() && old(other)@.readable() && old(self)@.bytes == old(
                other,
            )@.bytes),
            final(self)@ == old(self)@,
            final(other)@ == old(other)@,
            final(self).id() == old(self).id(),
            final(other).id() == old(other).id(),
    {
        let mine = match self.try_read() {
            Some(lease) => lease,
            None => { return false; },
        };
        let theirs = match other.try_read() {
            Some(lease) => lease,
            None => {
                self.end_read(mine);
                return false;
            },
        };
        let equal = *self.buf(&mine) == *other.buf(&theirs);
        self.end_read(mine);
        other.end_read(theirs);
        equal
    }

    /// A key of its own with the same elements, read under a read lease.
    pub fn duplicate(&mut self) -> (copy: ProtKey<T>)
        requires
            old(self)@.readable(),
            old(self)@.readers < usize::MAX,
        ensures
            copy@ == fresh_key(old(self)@.bytes),
            final(self)@ == old(self)@,
            final(self).id() == old(self).id(),
    {
        let lease = self.read();
        let copy = ProtKey::new(self.buf(&lease).clone());
        self.end_read(lease);
        copy
    }
}

} // verus!
