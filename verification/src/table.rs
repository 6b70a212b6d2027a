//! The region table: an open-addressed hash table of region records, keyed
//! by the page an object starts in, with insertion and deletion after Knuth
//! (The Art of Computer Programming, volume 3, section 6.4, algorithms L and
//! R). Probing runs from the hashed slot towards slot 0 and wraps round.
use vstd::prelude::*;
use crate::fault::Fault;
use crate::mmap::{lemma_page_base, mask_pointer, page_base, valid_page_size};
use crate::region::{Region, RegionType, is_class_size};
use std::hash::Hasher;

verus! {

/// Number of slots of a new table. Tables only ever double and halve, and
/// never go below this.
pub const INITIAL_REGIONS: usize = 128;

/// `std::hash::SipHasher`, the hasher of SipHash-2-4.
#[verifier::external_type_specification]
#[verifier::external_body]
#[allow(deprecated)]
pub struct ExSipHasher(std::hash::SipHasher);

/// What a hasher holds: the values written to it so far, first to last.
pub uninterp spec fn sip_written(hasher: std::hash::SipHasher) -> Seq<Seq<u8>>;

/// The hash that a hasher with the all-zero key gives for the values
/// written to it.
pub uninterp spec fn sip_value(written: Seq<Seq<u8>>) -> u64;

/// `std::hash::SipHasher::new`: a hasher under the all-zero key, with
/// nothing written to it.
#[verifier::external_body]
#[allow(deprecated)]
fn sip_new() -> (hasher: std::hash::SipHasher)
    ensures
        sip_written(hasher) == Seq::<Seq<u8>>::empty(),
{
    std::hash::SipHasher::new()
}

/// `std::hash::Hasher::write` on a `SipHasher`: `bytes` is one more value
/// written to it.
#[verifier::external_body]
#[allow(deprecated)]
fn sip_write(hasher: &mut std::hash::SipHasher, bytes: &[u8])
    ensures
        sip_written(*final(hasher)) == sip_written(*old(hasher)).push(bytes@),
{
    hasher.write(bytes)
}

/// `std::hash::Hasher::finish` on a `SipHasher`: the hash of the values
/// written so far. The contract gives it its name and claims nothing else
/// of it.
#[verifier::external_body]
#[allow(deprecated)]
fn sip_finish(hasher: &std::hash::SipHasher) -> (h: u64)
    ensures
        h == sip_value(sip_written(*hasher)),
{
    hasher.finish()
}

/// The 64-bit SipHash-2-4 of the eight bytes of `word`, least significant
/// first, under the all-zero key.
#[verifier::opaque]
pub open spec fn sip_hash(word: u64) -> u64 {
    sip_value(seq![vstd::bytes::spec_u64_to_le_bytes(word)])
}

/// Hashes `word`.
#[allow(deprecated)]
fn hash_word(word: u64) -> (h: u64)
    ensures
        h == sip_hash(word),
{
    proof {
        reveal(sip_hash);
    }
    let mut hasher = sip_new();
    let bytes = vstd::bytes::u64_to_le_bytes(word);
    sip_write(&mut hasher, bytes.as_slice());
    assert(sip_written(hasher) =~= seq![vstd::bytes::spec_u64_to_le_bytes(word)]);
    sip_finish(&hasher)
}

/// The sizes a table can have: `INITIAL_REGIONS` doubled any number of
/// times.
pub open spec fn is_table_size(n: int) -> bool
    decreases n,
{
    n == INITIAL_REGIONS || (n > INITIAL_REGIONS && n % 2 == 0 && is_table_size(n / 2))
}

/// The key of an object: the page it starts in.
pub open spec fn key_of(object: usize, page_size: usize) -> usize {
    page_base(object, page_size)
}

/// The slot at which the search for a key starts in a table of `n` slots.
pub open spec fn home(key: usize, n: int) -> int {
    (sip_hash(key as u64) & ((n - 1) as u64)) as int
}

/// Number of probes from slot `from` down to slot `to`, wrapping round from
/// slot 0 to slot `n - 1`.
pub open spec fn probes(from: int, to: int, n: int) -> int {
    if to <= from {
        from - to
    } else {
        from + n - to
    }
}

/// Whether slot `i` holds a record.
pub open spec fn occupied(t: Seq<Region>, i: int) -> bool {
    t[i].kind != RegionType::Free
}

/// Number of unused slots.
pub open spec fn count_free(t: Seq<Region>) -> nat
    decreases t.len(),
{
    if t.len() == 0 {
        0
    } else {
        count_free(t.drop_last()) + if t.last().kind == RegionType::Free {
            1nat
        } else {
            0nat
        }
    }
}

/// What makes a sequence of records a hash table: unused slots are exactly
/// those with a null object, no two records share a key, and no unused slot
/// lies on the way from a record's home slot to the record.
pub open spec fn table_inv(t: Seq<Region>, page_size: usize) -> bool {
    let n = t.len() as int;
    &&& forall|i: int| 0 <= i < n ==> (#[trigger] t[i].kind == RegionType::Free <==> t[i].object == 0)
    &&& distinct_keys(t, page_size)
    &&& forall|i: int, s: int|
        #![trigger t[i], t[s]]
        0 <= i < n && 0 <= s < n && occupied(t, i) && probes(
            home(key_of(t[i].object, page_size), n),
            s,
            n,
        ) < probes(home(key_of(t[i].object, page_size), n), i, n) ==> occupied(t, s)
}

/// No two records share a key.
pub open spec fn distinct_keys(t: Seq<Region>, page_size: usize) -> bool {
    forall|i: int, j: int|
        0 <= i < t.len() && 0 <= j < t.len() && i != j && occupied(t, i) && occupied(t, j)
            ==> key_of(#[trigger] t[i].object, page_size) != key_of(
            #[trigger] t[j].object,
            page_size,
        )
}

/// Whether the table holds a record under `key`.
pub open spec fn holds(t: Seq<Region>, page_size: usize, key: usize) -> bool {
    exists|i: int| 0 <= i < t.len() && #[trigger] occupied(t, i) && key_of(t[i].object, page_size) == key
}

/// The slot of the record under `key`.
pub open spec fn slot_of(t: Seq<Region>, page_size: usize, key: usize) -> int {
    choose|i: int| 0 <= i < t.len() && #[trigger] occupied(t, i) && key_of(t[i].object, page_size) == key
}

/// The table as a map from key to record.
pub open spec fn table_view(t: Seq<Region>, page_size: usize) -> Map<usize, Region> {
    Map::new(|key: usize| holds(t, page_size, key), |key: usize| t[slot_of(t, page_size, key)])
}

/// There is an unused slot where one is counted, and all are unused where
/// all are counted.
pub proof fn lemma_count_free_bounds(t: Seq<Region>)
    ensures
        count_free(t) <= t.len(),
        count_free(t) > 0 ==> exists|i: int| 0 <= i < t.len() && !#[trigger] occupied(t, i),
        count_free(t) == t.len() <==> forall|i: int| 0 <= i < t.len() ==> !#[trigger] occupied(t, i),
    decreases t.len(),
{
    if t.len() > 0 {
        let h = t.drop_last();
        lemma_count_free_bounds(h);
        assert forall|i: int| 0 <= i < h.len() implies occupied(h, i) == occupied(t, i) by {}
        if count_free(t) > 0 {
            if t.last().kind == RegionType::Free {
                assert(!occupied(t, t.len() - 1));
            } else {
                let i = choose|i: int| 0 <= i < h.len() && !#[trigger] occupied(h, i);
                assert(!occupied(t, i));
            }
        }
        if count_free(t) == t.len() {
            assert forall|i: int| 0 <= i < t.len() implies !#[trigger] occupied(t, i) by {
                if i < h.len() {
                    assert(!occupied(h, i));
                }
            }
        }
        if forall|i: int| 0 <= i < t.len() ==> !#[trigger] occupied(t, i) {
            assert forall|i: int| 0 <= i < h.len() implies !#[trigger] occupied(h, i) by {
                assert(!occupied(t, i));
            }
            assert(!occupied(t, t.len() - 1));
        }
    }
}

/// Replacing a record changes the count of unused slots by what the two
/// records differ in.
pub proof fn lemma_count_free_update(t: Seq<Region>, i: int, r: Region)
    requires
        0 <= i < t.len(),
    ensures
        count_free(t.update(i, r)) + (if t[i].kind == RegionType::Free { 1int } else { 0int })
            == count_free(t) + (if r.kind == RegionType::Free { 1int } else { 0int }),
    decreases t.len(),
{
    let u = t.update(i, r);
    if i == t.len() - 1 {
        assert(u.drop_last() =~= t.drop_last());
    } else {
        assert(u.drop_last() =~= t.drop_last().update(i, r));
        lemma_count_free_update(t.drop_last(), i, r);
    }
}

/// A slot more is an unused slot more if it is unused.
pub proof fn lemma_count_free_push(t: Seq<Region>, r: Region)
    ensures
        count_free(t.push(r)) == count_free(t) + (if r.kind == RegionType::Free { 1int } else { 0int }),
{
    assert(t.push(r).drop_last() =~= t);
}

/// Under the table invariant a key names at most one slot.
pub proof fn lemma_slot_of(t: Seq<Region>, page_size: usize, i: int)
    requires
        distinct_keys(t, page_size),
        0 <= i < t.len(),
        occupied(t, i),
    ensures
        holds(t, page_size, key_of(t[i].object, page_size)),
        slot_of(t, page_size, key_of(t[i].object, page_size)) == i,
        table_view(t, page_size).contains_key(key_of(t[i].object, page_size)),
        table_view(t, page_size)[key_of(t[i].object, page_size)] == t[i],
{
    let key = key_of(t[i].object, page_size);
    let j = slot_of(t, page_size, key);
    assert(0 <= j < t.len() && occupied(t, j) && key_of(t[j].object, page_size) == key);
}

/// A map that holds the record of every used slot under its key, and
/// nothing else, is the view of the table.
pub proof fn lemma_view_is(t: Seq<Region>, page_size: usize, m: Map<usize, Region>)
    requires
        distinct_keys(t, page_size),
        forall|i: int|
            0 <= i < t.len() && occupied(t, i) ==> m.contains_key(
                key_of(#[trigger] t[i].object, page_size),
            ) && m[key_of(t[i].object, page_size)] == t[i],
        forall|key: usize| #[trigger] m.contains_key(key) ==> holds(t, page_size, key),
    ensures
        table_view(t, page_size) == m,
{
    let v = table_view(t, page_size);
    assert forall|key: usize| v.contains_key(key) implies m.contains_key(key) && m[key] == v[key] by {
        let i = slot_of(t, page_size, key);
        assert(occupied(t, i) && t[i].object == t[i].object);
    }
    assert(v =~= m);
}

/// Replacing a record by one of the same object replaces it in the view.
pub proof fn lemma_update_view(t: Seq<Region>, page_size: usize, i: int, r: Region)
    requires
        table_inv(t, page_size),
        0 <= i < t.len(),
        occupied(t, i),
        r.object == t[i].object,
        r.kind != RegionType::Free,
    ensures
        table_inv(t.update(i, r), page_size),
        table_view(t.update(i, r), page_size) == table_view(t, page_size).insert(
            key_of(r.object, page_size),
            r,
        ),
        count_free(t.update(i, r)) == count_free(t),
{
    let u = t.update(i, r);
    let n = t.len() as int;
    assert forall|a: int| 0 <= a < n implies occupied(u, a) == occupied(t, a) && u[a].object
        == t[a].object by {}
    assert(table_inv(u, page_size)) by {
        assert forall|a: int, s: int|
            #![trigger u[a], u[s]]
            0 <= a < n && 0 <= s < n && occupied(u, a) && probes(
                home(key_of(u[a].object, page_size), n),
                s,
                n,
            ) < probes(home(key_of(u[a].object, page_size), n), a, n) implies occupied(u, s) by {
            assert(occupied(t, a) && t[a].object == u[a].object);
            assert(occupied(t, s) == occupied(u, s));
        }
        assert forall|a: int, b: int|
            0 <= a < n && 0 <= b < n && a != b && occupied(u, a) && occupied(u, b) implies key_of(
            #[trigger] u[a].object,
            page_size,
        ) != key_of(#[trigger] u[b].object, page_size) by {
            assert(occupied(t, a) && occupied(t, b));
            assert(t[a].object == u[a].object && t[b].object == u[b].object);
        }
    }
    let m = table_view(t, page_size).insert(key_of(r.object, page_size), r);
    assert forall|a: int| 0 <= a < n && occupied(u, a) implies m.contains_key(
        key_of(#[trigger] u[a].object, page_size),
    ) && m[key_of(u[a].object, page_size)] == u[a] by {
        assert(occupied(t, a));
        lemma_slot_of(t, page_size, a);
        if a != i {
            assert(occupied(t, i));
            assert(key_of(t[a].object, page_size) != key_of(t[i].object, page_size));
        }
    }
    assert forall|key: usize| #[trigger] m.contains_key(key) implies holds(u, page_size, key) by {
        if key == key_of(r.object, page_size) {
            assert(occupied(u, i));
        } else {
            let a = slot_of(t, page_size, key);
            assert(occupied(t, a));
            assert(occupied(u, a));
        }
    }
    lemma_view_is(u, page_size, m);
    lemma_count_free_update(t, i, r);
}

/// Putting a record into the first unused slot on the way from its home
/// slot adds it to the view.
pub proof fn lemma_insert_view(t: Seq<Region>, page_size: usize, i: int, r: Region)
    requires
        table_inv(t, page_size),
        0 <= i < t.len(),
        !occupied(t, i),
        r.object != 0,
        r.kind != RegionType::Free,
        !holds(t, page_size, key_of(r.object, page_size)),
        forall|s: int|
            #![trigger t[s]]
            0 <= s < t.len() && probes(home(key_of(r.object, page_size), t.len() as int), s, t.len() as int)
                < probes(home(key_of(r.object, page_size), t.len() as int), i, t.len() as int)
                ==> occupied(t, s),
    ensures
        table_inv(t.update(i, r), page_size),
        table_view(t.update(i, r), page_size) == table_view(t, page_size).insert(
            key_of(r.object, page_size),
            r,
        ),
        count_free(t.update(i, r)) == count_free(t) - 1,
{
    let u = t.update(i, r);
    let n = t.len() as int;
    assert forall|a: int| 0 <= a < n && a != i implies occupied(u, a) == occupied(t, a) && u[a]
        == t[a] by {}
    assert(table_inv(u, page_size)) by {
        assert forall|a: int, s: int|
            #![trigger u[a], u[s]]
            0 <= a < n && 0 <= s < n && occupied(u, a) && probes(
                home(key_of(u[a].object, page_size), n),
                s,
                n,
            ) < probes(home(key_of(u[a].object, page_size), n), a, n) implies occupied(u, s) by {
            if s != i {
                if a != i {
                    assert(occupied(t, a) && t[a] == u[a]);
                    assert(occupied(t, s));
                } else {
                    assert(occupied(t, s));
                }
            }
        }
        assert forall|a: int, b: int|
            0 <= a < n && 0 <= b < n && a != b && occupied(u, a) && occupied(u, b) implies key_of(
            #[trigger] u[a].object,
            page_size,
        ) != key_of(#[trigger] u[b].object, page_size) by {
            if a == i {
                assert(occupied(t, b));
            } else if b == i {
                assert(occupied(t, a));
            } else {
                assert(occupied(t, a) && occupied(t, b));
            }
        }
        assert forall|a: int| 0 <= a < n implies (#[trigger] u[a].kind == RegionType::Free
            <==> u[a].object == 0) by {
            if a != i {
                assert(t[a].kind == RegionType::Free <==> t[a].object == 0);
            }
        }
    }
    let m = table_view(t, page_size).insert(key_of(r.object, page_size), r);
    assert forall|a: int| 0 <= a < n && occupied(u, a) implies m.contains_key(
        key_of(#[trigger] u[a].object, page_size),
    ) && m[key_of(u[a].object, page_size)] == u[a] by {
        if a != i {
            assert(occupied(t, a));
            lemma_slot_of(t, page_size, a);
        }
    }
    assert forall|key: usize| #[trigger] m.contains_key(key) implies holds(u, page_size, key) by {
        if key == key_of(r.object, page_size) {
            assert(occupied(u, i));
        } else {
            let a = slot_of(t, page_size, key);
            assert(occupied(t, a));
            assert(occupied(u, a));
        }
    }
    lemma_view_is(u, page_size, m);
    lemma_count_free_update(t, i, r);
}

/// A record with its object and kind wiped.
pub open spec fn wiped(r: Region) -> Region {
    Region { object: 0, kind: RegionType::Free, ..r }
}

/// The home slot of the record in slot `a`.
pub open spec fn home_of(t: Seq<Region>, page_size: usize, a: int) -> int {
    home(key_of(t[a].object, page_size), t.len() as int)
}

/// The state of a deletion under way. Slot `hole` has been emptied, and the
/// slots from the one before it down to `seen` have been looked at: all hold
/// records, and none of them is cut off from its home slot by the hole. Of
/// the other records no unused slot but the hole lies on the way from the
/// home slot.
pub open spec fn hole_inv(t: Seq<Region>, page_size: usize, hole: int, seen: int) -> bool {
    let n = t.len() as int;
    &&& 0 <= hole < n
    &&& 0 <= seen < n
    &&& !occupied(t, hole)
    &&& forall|i: int| 0 <= i < n ==> (#[trigger] t[i].kind == RegionType::Free <==> t[i].object == 0)
    &&& distinct_keys(t, page_size)
    &&& forall|a: int, s: int|
        #![trigger t[a], t[s]]
        0 <= a < n && 0 <= s < n && occupied(t, a) && probes(home_of(t, page_size, a), s, n)
            < probes(home_of(t, page_size, a), a, n) ==> occupied(t, s) || s == hole
    &&& forall|a: int|
        #![trigger t[a]]
        0 <= a < n && a != hole && probes(hole, a, n) <= probes(hole, seen, n) ==> occupied(t, a)
            && probes(home_of(t, page_size, a), hole, n) >= probes(home_of(t, page_size, a), a, n)
}

/// Whether the record in slot `i`, whose home slot is `from`, can stay
/// where it is although slot `hole` has been emptied: whether `from` lies
/// between `i` and the slot before `hole`.
pub open spec fn stays(i: int, from: int, hole: int) -> bool {
    (i <= from && from < hole) || (from < hole && hole < i) || (hole < i && i <= from)
}

/// Emptying a slot of a table begins a deletion.
pub proof fn lemma_hole_start(t: Seq<Region>, page_size: usize, d: int)
    requires
        table_inv(t, page_size),
        0 <= d < t.len(),
        occupied(t, d),
    ensures
        hole_inv(t.update(d, wiped(t[d])), page_size, d, d),
        table_view(t.update(d, wiped(t[d])), page_size) == table_view(t, page_size).remove(
            key_of(t[d].object, page_size),
        ),
        count_free(t.update(d, wiped(t[d]))) == count_free(t) + 1,
{
    let u = t.update(d, wiped(t[d]));
    let n = t.len() as int;
    assert forall|a: int| 0 <= a < n && a != d implies u[a] == t[a] && occupied(u, a) == occupied(
        t,
        a,
    ) by {}
    assert(distinct_keys(u, page_size)) by {
        assert forall|a: int, b: int|
            0 <= a < n && 0 <= b < n && a != b && occupied(u, a) && occupied(u, b) implies key_of(
            #[trigger] u[a].object,
            page_size,
        ) != key_of(#[trigger] u[b].object, page_size) by {
            assert(occupied(t, a) && occupied(t, b));
        }
    }
    assert forall|a: int, s: int|
        #![trigger u[a], u[s]]
        0 <= a < n && 0 <= s < n && occupied(u, a) && probes(home_of(u, page_size, a), s, n)
            < probes(home_of(u, page_size, a), a, n) implies occupied(u, s) || s == d by {
        assert(occupied(t, a) && t[a] == u[a]);
        assert(occupied(t, s));
    }
    assert forall|i: int| 0 <= i < n implies (#[trigger] u[i].kind == RegionType::Free
        <==> u[i].object == 0) by {
        if i != d {
            assert(t[i].kind == RegionType::Free <==> t[i].object == 0);
        }
    }
    let kd = key_of(t[d].object, page_size);
    let m = table_view(t, page_size).remove(kd);
    assert forall|a: int| 0 <= a < n && occupied(u, a) implies m.contains_key(
        key_of(#[trigger] u[a].object, page_size),
    ) && m[key_of(u[a].object, page_size)] == u[a] by {
        assert(occupied(t, a));
        lemma_slot_of(t, page_size, a);
        assert(key_of(t[a].object, page_size) != key_of(t[d].object, page_size));
    }
    assert forall|key: usize| #[trigger] m.contains_key(key) implies holds(u, page_size, key) by {
        let a = slot_of(t, page_size, key);
        assert(occupied(t, a));
        assert(a != d);
        assert(occupied(u, a));
    }
    lemma_view_is(u, page_size, m);
    lemma_count_free_update(t, d, wiped(t[d]));
}

/// A record that can stay where it is has been looked at.
pub proof fn lemma_hole_keep(t: Seq<Region>, page_size: usize, hole: int, seen: int, i: int)
    requires
        hole_inv(t, page_size, hole, seen),
        i == if seen == 0 { t.len() - 1 } else { seen - 1 },
        i != hole,
        occupied(t, i),
        stays(i, home_of(t, page_size, i), hole),
        0 <= home_of(t, page_size, i) < t.len(),
    ensures
        hole_inv(t, page_size, hole, i),
{
    let n = t.len() as int;
    assert forall|a: int|
        #![trigger t[a]]
        0 <= a < n && a != hole && probes(hole, a, n) <= probes(hole, i, n) implies occupied(t, a)
        && probes(home_of(t, page_size, a), hole, n) >= probes(home_of(t, page_size, a), a, n) by {
        if a != i {
            assert(probes(hole, a, n) <= probes(hole, seen, n));
        }
    }
}

/// A record that cannot stay moves into the hole and leaves a hole behind.
pub proof fn lemma_hole_move(t: Seq<Region>, page_size: usize, hole: int, seen: int, i: int)
    requires
        hole_inv(t, page_size, hole, seen),
        i == if seen == 0 { t.len() - 1 } else { seen - 1 },
        i != hole,
        occupied(t, i),
        !stays(i, home_of(t, page_size, i), hole),
        0 <= home_of(t, page_size, i) < t.len(),
    ensures
        hole_inv(t.update(hole, t[i]).update(i, wiped(t[i])), page_size, i, i),
        table_view(t.update(hole, t[i]).update(i, wiped(t[i])), page_size) == table_view(
            t,
            page_size,
        ),
        count_free(t.update(hole, t[i]).update(i, wiped(t[i]))) == count_free(t),
{
    let n = t.len() as int;
    let u = t.update(hole, t[i]).update(i, wiped(t[i]));
    let h = home_of(t, page_size, i);
    assert(u[hole] == t[i]);
    assert(u[i] == wiped(t[i]));
    assert forall|a: int| 0 <= a < n && a != hole && a != i implies u[a] == t[a] && occupied(u, a)
        == occupied(t, a) by {}
    assert(probes(h, hole, n) < probes(h, i, n));
    assert(distinct_keys(u, page_size)) by {
        assert forall|a: int, b: int|
            0 <= a < n && 0 <= b < n && a != b && occupied(u, a) && occupied(u, b) implies key_of(
            #[trigger] u[a].object,
            page_size,
        ) != key_of(#[trigger] u[b].object, page_size) by {
            let a0 = if a == hole { i } else { a };
            let b0 = if b == hole { i } else { b };
            assert(occupied(t, a0) && occupied(t, b0) && a0 != b0);
            assert(u[a].object == t[a0].object && u[b].object == t[b0].object);
        }
    }
    assert forall|a: int, s: int|
        #![trigger u[a], u[s]]
        0 <= a < n && 0 <= s < n && occupied(u, a) && probes(home_of(u, page_size, a), s, n)
            < probes(home_of(u, page_size, a), a, n) implies occupied(u, s) || s == i by {
        if s != i {
            if a == hole {
                assert(home_of(u, page_size, a) == h);
                assert(probes(h, s, n) < probes(h, i, n));
                assert(occupied(t, i));
                assert(occupied(t, s) || s == hole);
            } else {
                assert(occupied(t, a) && u[a] == t[a]);
                assert(occupied(t, s) || s == hole);
            }
        }
    }
    assert forall|x: int| 0 <= x < n implies (#[trigger] u[x].kind == RegionType::Free
        <==> u[x].object == 0) by {
        if x == hole {
            assert(t[i].kind == RegionType::Free <==> t[i].object == 0);
        } else if x != i {
            assert(t[x].kind == RegionType::Free <==> t[x].object == 0);
        }
    }
    let m = table_view(t, page_size);
    assert forall|a: int| 0 <= a < n && occupied(u, a) implies m.contains_key(
        key_of(#[trigger] u[a].object, page_size),
    ) && m[key_of(u[a].object, page_size)] == u[a] by {
        let a0 = if a == hole { i } else { a };
        assert(occupied(t, a0) && t[a0] == u[a]);
        lemma_slot_of(t, page_size, a0);
    }
    assert forall|key: usize| #[trigger] m.contains_key(key) implies holds(u, page_size, key) by {
        let a = slot_of(t, page_size, key);
        assert(occupied(t, a));
        if a == i {
            assert(occupied(u, hole) && u[hole].object == t[i].object);
        } else {
            assert(occupied(u, a));
        }
    }
    lemma_view_is(u, page_size, m);
    lemma_count_free_update(t, hole, t[i]);
    lemma_count_free_update(t.update(hole, t[i]), i, wiped(t[i]));
}

/// When the slot after the last one looked at is unused, the deletion is
/// done: the table is a hash table again.
pub proof fn lemma_hole_done(t: Seq<Region>, page_size: usize, hole: int, seen: int, i: int)
    requires
        hole_inv(t, page_size, hole, seen),
        i == if seen == 0 { t.len() - 1 } else { seen - 1 },
        i != hole,
        !occupied(t, i),
        forall|a: int| 0 <= a < t.len() ==> 0 <= #[trigger] home_of(t, page_size, a) < t.len(),
    ensures
        table_inv(t, page_size),
{
    let n = t.len() as int;
    assert forall|a: int, s: int|
        #![trigger t[a], t[s]]
        0 <= a < n && 0 <= s < n && occupied(t, a) && probes(home_of(t, page_size, a), s, n)
            < probes(home_of(t, page_size, a), a, n) implies occupied(t, s) by {
        let h = home_of(t, page_size, a);
        assert(0 <= h < n);
        assert(occupied(t, s) || s == hole);
        if s == hole {
            if probes(hole, a, n) <= probes(hole, seen, n) {
                assert(probes(h, hole, n) >= probes(h, a, n));
            } else {
                assert(probes(h, i, n) < probes(h, a, n));
                assert(occupied(t, i) || i == hole);
            }
        }
    }
    assert forall|i: int, s: int|
        #![trigger t[i], t[s]]
        0 <= i < n && 0 <= s < n && occupied(t, i) && probes(
            home(key_of(t[i].object, page_size), n),
            s,
            n,
        ) < probes(home(key_of(t[i].object, page_size), n), i, n) implies occupied(t, s) by {
        assert(home_of(t, page_size, i) == home(key_of(t[i].object, page_size), n));
    }
}

/// Every table size is a multiple of `INITIAL_REGIONS`.
pub proof fn lemma_table_size(n: int)
    requires
        is_table_size(n),
    ensures
        n % 128 == 0,
        n >= 128,
        is_table_size(2 * n),
        n > 128 ==> is_table_size(n / 2),
    decreases n,
{
    if n != INITIAL_REGIONS {
        lemma_table_size(n / 2);
    }
    assert(is_table_size(2 * n)) by {
        assert((2 * n) / 2 == n);
    }
}

/// Every slot has a home slot inside the table.
pub proof fn lemma_home_in_range(key: usize, n: int)
    requires
        0 < n <= usize::MAX,
    ensures
        0 <= home(key, n) < n,
{
    let h = sip_hash(key as u64);
    let mask = (n - 1) as u64;
    assert(h & mask <= mask) by (bit_vector);
}

/// The unused slots of a prefix, and those of the whole.
pub proof fn lemma_count_free_take(t: Seq<Region>, k: int)
    requires
        0 <= k <= t.len(),
    ensures
        count_free(t.take(k)) <= count_free(t),
        count_free(t) <= count_free(t.take(k)) + (t.len() - k),
        k < t.len() ==> count_free(t.take(k + 1)) == count_free(t.take(k)) + if t[k].kind
            == RegionType::Free {
            1int
        } else {
            0int
        },
    decreases t.len() - k,
{
    if k < t.len() {
        assert(t.take(k + 1).drop_last() =~= t.take(k));
        lemma_count_free_take(t, k + 1);
    } else {
        assert(t.take(k) =~= t);
    }
}

/// The keys of the records in the first `k` slots.
pub closed spec fn prefix_keys(t: Seq<Region>, page_size: usize, k: int) -> Set<usize> {
    Set::new(
        |key: usize|
            exists|i: int|
                0 <= i < k && i < t.len() && #[trigger] occupied(t, i) && key_of(
                    t[i].object,
                    page_size,
                ) == key,
    )
}

/// There are as many keys in the first `k` slots as there are records.
pub proof fn lemma_prefix_keys(t: Seq<Region>, page_size: usize, k: int)
    requires
        distinct_keys(t, page_size),
        0 <= k <= t.len(),
    ensures
        prefix_keys(t, page_size, k).finite(),
        prefix_keys(t, page_size, k).len() == k - count_free(t.take(k)),
    decreases k,
{
    if k == 0 {
        assert(prefix_keys(t, page_size, 0) =~= Set::<usize>::empty());
        assert(t.take(0) =~= Seq::<Region>::empty());
    } else {
        lemma_prefix_keys(t, page_size, k - 1);
        lemma_count_free_take(t, k - 1);
        let before = prefix_keys(t, page_size, k - 1);
        let now = prefix_keys(t, page_size, k);
        if occupied(t, k - 1) {
            let key = key_of(t[k - 1].object, page_size);
            assert(!before.contains(key)) by {
                if before.contains(key) {
                    let i = choose|i: int|
                        0 <= i < k - 1 && i < t.len() && #[trigger] occupied(t, i) && key_of(
                            t[i].object,
                            page_size,
                        ) == key;
                    assert(key_of(t[i].object, page_size) != key_of(t[k - 1].object, page_size));
                }
            }
            assert(now =~= before.insert(key)) by {
                assert forall|x: usize| now.contains(x) implies before.insert(key).contains(x) by {
                    let i = choose|i: int|
                        0 <= i < k && i < t.len() && #[trigger] occupied(t, i) && key_of(
                            t[i].object,
                            page_size,
                        ) == x;
                    if i < k - 1 {
                        assert(before.contains(x));
                    }
                }
                assert forall|x: usize| before.insert(key).contains(x) implies now.contains(x) by {
                    if x == key {
                        assert(occupied(t, k - 1));
                    } else {
                        let i = choose|i: int|
                            0 <= i < k - 1 && i < t.len() && #[trigger] occupied(t, i) && key_of(
                                t[i].object,
                                page_size,
                            ) == x;
                        assert(occupied(t, i));
                    }
                }
            }
        } else {
            assert(now =~= before) by {
                assert forall|x: usize| now.contains(x) implies before.contains(x) by {
                    let i = choose|i: int|
                        0 <= i < k && i < t.len() && #[trigger] occupied(t, i) && key_of(
                            t[i].object,
                            page_size,
                        ) == x;
                    assert(i < k - 1);
                }
                assert forall|x: usize| before.contains(x) implies now.contains(x) by {
                    let i = choose|i: int|
                        0 <= i < k - 1 && i < t.len() && #[trigger] occupied(t, i) && key_of(
                            t[i].object,
                            page_size,
                        ) == x;
                    assert(occupied(t, i));
                }
            }
        }
    }
}

/// The records of a table, one by one.
pub struct Table {
    regions: Vec<Region>,
    free: usize,
    page_size: usize,
}

impl View for Table {
    type V = Map<usize, Region>;

    /// The records by key.
    closed spec fn view(&self) -> Map<usize, Region> {
        table_view(self.slots(), self.spec_page_size())
    }
}

impl Table {
    /// The slots, used and unused.
    pub closed spec fn slots(&self) -> Seq<Region> {
        self.regions@
    }

    /// The count of unused slots the table keeps.
    pub closed spec fn spec_free(&self) -> usize {
        self.free
    }

    /// The page size the keys are taken by.
    pub closed spec fn spec_page_size(&self) -> usize {
        self.page_size
    }

    /// Number of slots.
    pub open spec fn spec_total(&self) -> int {
        self.slots().len() as int
    }

    /// The table is a hash table of a valid size that knows how many of its
    /// slots are unused and keeps at least a quarter of them so, give or
    /// take one.
    #[verifier::opaque]
    pub closed spec fn wf(&self) -> bool {
        &&& valid_page_size(self.spec_page_size())
        &&& is_table_size(self.spec_total())
        &&& table_inv(self.slots(), self.spec_page_size())
        &&& self.spec_free() == count_free(self.slots())
        &&& self.spec_free() * 4 + 4 >= self.spec_total()
    }

    /// What well-formedness says of the sizes.
    pub proof fn lemma_wf(&self)
        requires
            self.wf(),
        ensures
            valid_page_size(self.spec_page_size()),
            is_table_size(self.spec_total()),
            self.spec_free() <= self.spec_total(),
            self.spec_free() * 4 + 4 >= self.spec_total(),
            self.spec_total() >= INITIAL_REGIONS,
    {
        reveal(Table::wf);
        lemma_count_free_bounds(self.slots());
        lemma_table_size(self.spec_total());
    }

    /// There are as many keys as there are records.
    pub proof fn lemma_used(&self)
        requires
            self.wf(),
        ensures
            self@.dom().finite(),
            self@.dom().len() == self.spec_used(),
    {
        reveal(Table::wf);
        let t = self.slots();
        let ps = self.spec_page_size();
        lemma_prefix_keys(t, ps, t.len() as int);
        assert(t.take(t.len() as int) =~= t);
        assert(self@.dom() =~= prefix_keys(t, ps, t.len() as int)) by {
            assert forall|key: usize| self@.dom().contains(key) implies prefix_keys(
                t,
                ps,
                t.len() as int,
            ).contains(key) by {
                let i = slot_of(t, ps, key);
                assert(occupied(t, i));
            }
        }
    }

    /// The unused slots are counted right.
    pub proof fn lemma_free_count(&self)
        requires
            self.wf(),
        ensures
            self.spec_free() == count_free(self.slots()),
    {
        reveal(Table::wf);
    }

    /// Every record of the view sits under the key of its object, in the
    /// slot the view says, and is in use.
    pub proof fn lemma_view(&self, key: usize)
        requires
            self.wf(),
            self@.contains_key(key),
        ensures
            self.key(self@[key].object) == key,
            self@[key].object != 0,
            self@[key].kind != RegionType::Free,
            0 <= self.spec_index(key) < self.spec_total(),
            self.slots()[self.spec_index(key)] == self@[key],
            occupied(self.slots(), self.spec_index(key)),
    {
        reveal(Table::wf);
        let i = slot_of(self.slots(), self.spec_page_size(), key);
        assert(occupied(self.slots(), i));
        assert(self.slots()[i].kind == RegionType::Free <==> self.slots()[i].object == 0);
    }

    /// The record of a used slot is in the view, under the key of its
    /// object.
    pub proof fn lemma_slot(&self, index: int)
        requires
            self.wf(),
            0 <= index < self.spec_total(),
            occupied(self.slots(), index),
        ensures
            self@.contains_key(self.key(self.slots()[index].object)),
            self@[self.key(self.slots()[index].object)] == self.slots()[index],
            self.spec_index(self.key(self.slots()[index].object)) == index,
            self.slots()[index].object != 0,
    {
        reveal(Table::wf);
        lemma_slot_of(self.slots(), self.spec_page_size(), index);
        assert(self.slots()[index].kind == RegionType::Free <==> self.slots()[index].object == 0);
    }

    /// The slot the view's record under `key` sits in.
    pub open spec fn spec_index(&self, key: usize) -> int {
        slot_of(self.slots(), self.spec_page_size(), key)
    }

    /// The key of `object` in this table.
    pub open spec fn key(&self, object: usize) -> usize {
        key_of(object, self.spec_page_size())
    }

    /// Number of records.
    pub open spec fn spec_used(&self) -> int {
        self.spec_total() - self.spec_free()
    }

    /// `count` unused slots.
    fn vacant_slots(count: usize) -> (regions: Vec<Region>)
        ensures
            regions@.len() == count,
            count_free(regions@) == count,
            forall|i: int|
                0 <= i < count ==> (#[trigger] regions@[i]).object == 0 && regions@[i].kind
                    == RegionType::Free,
    {
        let mut regions: Vec<Region> = Vec::new();
        let mut i: usize = 0;
        while i < count
            invariant
                i <= count,
                regions@.len() == i,
                count_free(regions@) == i,
                forall|j: int|
                    0 <= j < i ==> (#[trigger] regions@[j]).object == 0 && regions@[j].kind
                        == RegionType::Free,
            decreases count - i,
        {
            let r = Region::vacant();
            proof {
                lemma_count_free_push(regions@, r);
            }
            regions.push(r);
            i += 1;
        }
        regions
    }

    /// An empty table of `INITIAL_REGIONS` slots.
    pub fn new(page_size: usize) -> (table: Table)
        requires
            valid_page_size(page_size),
        ensures
            table.wf(),
            table@ == Map::<usize, Region>::empty(),
            table.spec_total() == INITIAL_REGIONS,
            table.spec_free() == INITIAL_REGIONS,
            table.spec_page_size() == page_size,
    {
        proof {
            reveal(Table::wf);
        }
        let table = Table { regions: Self::vacant_slots(INITIAL_REGIONS), free: INITIAL_REGIONS, page_size };
        assert(table@ =~= Map::<usize, Region>::empty());
        table
    }

    /// Number of slots.
    pub fn total(&self) -> (total: usize)
        ensures
            total == self.spec_total(),
    {
        proof {
            reveal(Table::wf);
        }
        self.regions.len()
    }

    /// Number of unused slots.
    pub fn free(&self) -> (free: usize)
        ensures
            free == self.spec_free(),
    {
        proof {
            reveal(Table::wf);
        }
        self.free
    }

    /// The page size the keys are taken by.
    pub fn page_size(&self) -> (page_size: usize)
        ensures
            page_size == self.spec_page_size(),
    {
        proof {
            reveal(Table::wf);
        }
        self.page_size
    }

    /// Number of records.
    pub fn regions_used(&self) -> (used: usize)
        requires
            self.wf(),
        ensures
            used == self.spec_used(),
    {
        proof {
            reveal(Table::wf);
        }
        proof {
            lemma_count_free_bounds(self.regions@);
        }
        self.regions.len() - self.free
    }

    /// The bits of a hash that pick a slot.
    pub fn region_mask(&self) -> (mask: usize)
        requires
            self.wf(),
        ensures
            mask == self.spec_total() - 1,
    {
        proof {
            reveal(Table::wf);
        }
        self.regions.len() - 1
    }

    /// The record in slot `index`.
    pub fn region_at_index(&self, index: usize) -> (region: &Region)
        requires
            index < self.spec_total(),
        ensures
            *region == self.slots()[index as int],
    {
        proof {
            reveal(Table::wf);
        }
        &self.regions[index]
    }

    /// The slot at which the search for `object` starts.
    pub fn object_to_region_index(&self, object: usize) -> (index: usize)
        requires
            valid_page_size(self.spec_page_size()),
            0 < self.spec_total(),
        ensures
            index == home(self.key(object), self.spec_total()),
            index < self.spec_total(),
    {
        let key = mask_pointer(object, self.page_size);
        let h = hash_word(key as u64);
        let mask = (self.regions.len() - 1) as u64;
        assert(h & mask <= mask) by (bit_vector);
        (h & mask) as usize
    }

    /// The slot before `index` on the way of a search.
    fn step_back(&self, index: usize) -> (before: usize)
        requires
            self.spec_total() > 0,
            index < self.spec_total(),
        ensures
            before < self.spec_total(),
            before == if index == 0 { self.spec_total() - 1 } else { index - 1 },
    {
        proof {
            reveal(Table::wf);
        }
        if index == 0 {
            self.regions.len() - 1
        } else {
            index - 1
        }
    }

    /// The slot a record for `object` goes to: the first unused slot met on
    /// the way from its home slot.
    pub fn region_pick(&self, object: usize) -> (index: usize)
        requires
            self.wf(),
        ensures
            index < self.spec_total(),
            !occupied(self.slots(), index as int),
            forall|s: int|
                #![trigger occupied(self.slots(), s)]
                0 <= s < self.spec_total() && probes(
                    home(self.key(object), self.spec_total()),
                    s,
                    self.spec_total(),
                ) < probes(
                    home(self.key(object), self.spec_total()),
                    index as int,
                    self.spec_total(),
                ) ==> occupied(self.slots(), s),
    {
        proof {
            reveal(Table::wf);
        }
        let ghost n = self.spec_total();
        let ghost start = home(self.key(object), n);
        proof {
            lemma_count_free_bounds(self.regions@);
        }
        let ghost unused = choose|i: int| 0 <= i < n && !#[trigger] occupied(self.slots(), i);
        let mut index = self.object_to_region_index(object);
        loop
            invariant
                n == self.spec_total(),
                n > 0,
                index < n,
                0 <= unused < n,
                !occupied(self.slots(), unused),
                start == home(self.key(object), n),
                0 <= start < n,
                forall|s: int|
                    #![trigger occupied(self.slots(), s)]
                    0 <= s < n && probes(start, s, n) < probes(start, index as int, n)
                        ==> occupied(self.slots(), s),
            ensures
                !occupied(self.slots(), index as int),
            decreases probes(index as int, unused, n),
        {
            if self.region_at_index(index).is_free() {
                break ;
            }
            let ghost here = index as int;
            index = self.step_back(index);
            proof {
                assert forall|s: int|
                    #![trigger occupied(self.slots(), s)]
                    0 <= s < n && probes(start, s, n) < probes(start, index as int, n) implies occupied(
                    self.slots(),
                    s,
                ) by {
                    if s != here {
                        assert(probes(start, s, n) < probes(start, here, n));
                    }
                }
            }
        }
        index
    }

    /// What a lookup of `object` gives: the record under the key of
    /// `object` if it is a chunk, or if it is the record of `object` itself.
    pub open spec fn spec_find(&self, object: usize) -> Option<Region> {
        let key = self.key(object);
        if self@.contains_key(key) && (self@[key].kind == RegionType::Chunk || self@[key].object
            == object) {
            Some(self@[key])
        } else {
            None
        }
    }

    /// The slot of the record whose object starts in the page of `object`,
    /// if there is one.
    pub fn region_lookup(&self, object: usize) -> (found: Option<usize>)
        requires
            self.wf(),
        ensures
            found is Some <==> self@.contains_key(self.key(object)),
            found matches Some(index) ==> index < self.spec_total() && index == self.spec_index(
                self.key(object),
            ) && occupied(self.slots(), index as int) && self.slots()[index as int]
                == self@[self.key(object)],
    {
        proof {
            reveal(Table::wf);
        }
        let ghost n = self.spec_total();
        let ghost key = self.key(object);
        let ghost first = home(key, n);
        proof {
            lemma_count_free_bounds(self.regions@);
        }
        let ghost unused = choose|i: int| 0 <= i < n && !#[trigger] occupied(self.slots(), i);
        let start = mask_pointer(object, self.page_size);
        let mut index = self.object_to_region_index(object);
        loop
            invariant
                self.wf(),
                n == self.spec_total(),
                key == self.key(object),
                start == key,
                index < n,
                0 <= unused < n,
                !occupied(self.slots(), unused),
                first == home(key, n),
                0 <= first < n,
                forall|s: int|
                    #![trigger self.slots()[s]]
                    0 <= s < n && probes(first, s, n) < probes(first, index as int, n) ==> occupied(
                        self.slots(),
                        s,
                    ) && key_of(self.slots()[s].object, self.spec_page_size()) != key,
            decreases probes(index as int, unused, n),
        {
            proof {
                reveal(Table::wf);
            }
            let region = self.region_at_index(index);
            if region.is_free() {
                proof {
                    if holds(self.slots(), self.spec_page_size(), key) {
                        let j = slot_of(self.slots(), self.spec_page_size(), key);
                        assert(occupied(self.slots(), j));
                        assert(probes(first, j, n) < probes(first, index as int, n) || probes(
                            first,
                            index as int,
                            n,
                        ) < probes(first, j, n));
                    }
                }
                return None;
            }
            if mask_pointer(region.object, self.page_size) == start {
                proof {
                    lemma_slot_of(self.slots(), self.spec_page_size(), index as int);
                }
                return Some(index);
            }
            let ghost here = index as int;
            index = self.step_back(index);
            proof {
                assert forall|s: int|
                    #![trigger self.slots()[s]]
                    0 <= s < n && probes(first, s, n) < probes(first, index as int, n) implies occupied(
                    self.slots(),
                    s,
                ) && key_of(self.slots()[s].object, self.spec_page_size()) != key by {
                    if s != here {
                        assert(probes(first, s, n) < probes(first, here, n));
                    }
                }
            }
        }
    }

    /// Looks `object` up. A pointer anywhere in a chunk page finds the
    /// chunk; any other record is found by the address of its object alone.
    pub fn region_find(&self, object: usize) -> (found: Option<usize>)
        requires
            self.wf(),
            object != 0,
        ensures
            match found {
                Some(index) => index < self.spec_total() && self.spec_find(object) == Some(
                    self.slots()[index as int],
                ) && index == self.spec_index(self.key(object)) && occupied(
                    self.slots(),
                    index as int,
                ),
                None => self.spec_find(object) is None,
            },
    {
        proof {
            reveal(Table::wf);
        }
        match self.region_lookup(object) {
            Some(index) => {
                let region = self.region_at_index(index);
                if !region.is_chunk() && region.object != object {
                    None
                } else {
                    Some(index)
                }
            },
            None => None,
        }
    }

    /// Replaces the record in slot `index` by `region`, a record of the
    /// same object.
    pub fn update(&mut self, index: usize, region: Region)
        requires
            old(self).wf(),
            index < old(self).spec_total(),
            occupied(old(self).slots(), index as int),
            region.object == old(self).slots()[index as int].object,
            region.kind != RegionType::Free,
        ensures
            final(self).wf(),
            final(self).slots() == old(self).slots().update(index as int, region),
            final(self)@ == old(self)@.insert(old(self).key(region.object), region),
            final(self).spec_free() == old(self).spec_free(),
            final(self).spec_page_size() == old(self).spec_page_size(),
    {
        proof {
            reveal(Table::wf);
        }
        proof {
            lemma_update_view(self.regions@, self.page_size, index as int, region);
        }
        self.regions[index] = region;
    }

    /// What `region_insert` puts into the table for an object: a chunk of
    /// free slots of `size` bytes, or a large object of `size` bytes.
    pub open spec fn is_new_record(
        region: Region,
        object: usize,
        size: usize,
        chunk: bool,
        canary_dir: usize,
        page_size: usize,
    ) -> bool {
        &&& region.object == object
        &&& region.canary == canary_dir ^ object
        &&& region.size == size
        &&& region.kind == if chunk { RegionType::Chunk } else { RegionType::Large }
        &&& region.next == 0
        &&& region.prev == 0
        &&& forall|k: int|
            0 <= k < 128 ==> region.slot_free(k) == (chunk && size != 0 && k < region.slots(
                page_size,
            ))
    }

    /// Moves every record into a new table of `count` slots.
    #[verifier::rlimit(100)]
    fn regions_realloc(&mut self, count: usize)
        requires
            old(self).wf(),
            is_table_size(count as int),
            (count - old(self).spec_used()) * 4 + 4 >= count,
            old(self).spec_used() < count,
        ensures
            final(self).wf(),
            final(self)@ == old(self)@,
            final(self).spec_total() == count,
            final(self).spec_used() == old(self).spec_used(),
            final(self).spec_page_size() == old(self).spec_page_size(),
    {
        proof {
            reveal(Table::wf);
        }
        let prev_total = self.regions.len();
        let ghost t0 = self.regions@;
        let ghost ps = self.page_size;
        let ghost used = self.spec_used();
        let mut fresh = Table {
            regions: Self::vacant_slots(count),
            free: count,
            page_size: self.page_size,
        };
        proof {
            lemma_count_free_bounds(t0);
            assert(fresh@ =~= Map::<usize, Region>::empty());
            assert(t0.take(0) =~= Seq::<Region>::empty());
        }
        let mut k: usize = 0;
        while k < prev_total
            invariant
                k <= prev_total,
                prev_total == t0.len(),
                self.regions@ == t0,
                self.page_size == ps,
                fresh.page_size == ps,
                valid_page_size(ps),
                table_inv(t0, ps),
                used == t0.len() - count_free(t0),
                fresh.regions@.len() == count,
                is_table_size(count as int),
                (count - used) * 4 + 4 >= count,
                used < count,
                table_inv(fresh.regions@, ps),
                fresh.free == count_free(fresh.regions@),
                fresh.free == count - (k - count_free(t0.take(k as int))),
                forall|key: usize|
                    #![trigger fresh@.contains_key(key)]
                    fresh@.contains_key(key) <==> holds(t0, ps, key) && slot_of(t0, ps, key) < k,
                forall|key: usize|
                    #![trigger fresh@[key]]
                    fresh@.contains_key(key) ==> fresh@[key] == t0[slot_of(t0, ps, key)],
            decreases prev_total - k,
        {
            proof {
                reveal(Table::wf);
            }
            let region = self.regions[k];
            proof {
                lemma_count_free_take(t0, k as int);
                lemma_count_free_bounds(t0);
                lemma_count_free_take(t0, k as int + 1);
            }
            let ghost before = fresh@;
            if !region.is_free() {
                proof {
                    lemma_slot_of(t0, ps, k as int);
                }
                let index = fresh.region_pick(region.object);
                proof {
                    let kk = key_of(region.object, ps);
                    assert(!fresh@.contains_key(kk));
                    assert(!holds(fresh.regions@, ps, kk));
                    assert(t0[k as int].object != 0);
                    lemma_insert_view(fresh.regions@, ps, index as int, region);
                }
                fresh.regions[index] = region;
                fresh.free = fresh.free - 1;
                proof {
                    let kk = key_of(region.object, ps);
                    assert(fresh@ == before.insert(kk, region));
                    assert forall|key: usize|
                        #![trigger fresh@.contains_key(key)]
                        fresh@.contains_key(key) <==> holds(t0, ps, key) && slot_of(t0, ps, key) < k
                            + 1 by {
                        if holds(t0, ps, key) && slot_of(t0, ps, key) == k {
                            assert(key == kk);
                        }
                    }
                }
            } else {
                proof {
                    assert forall|key: usize|
                        #![trigger fresh@.contains_key(key)]
                        fresh@.contains_key(key) <==> holds(t0, ps, key) && slot_of(t0, ps, key) < k
                            + 1 by {
                        if holds(t0, ps, key) {
                            assert(occupied(t0, slot_of(t0, ps, key)));
                        }
                    }
                }
            }
            k += 1;
        }
        proof {
            assert(t0.take(k as int) =~= t0);
            assert(fresh@ =~= table_view(t0, ps));
        }
        self.regions = fresh.regions;
        self.free = fresh.free;
    }

    /// Doubles the table when fewer than a quarter of its slots are unused.
    /// Refused when the doubled size leaves the machine word.
    #[verifier::rlimit(100)]
    fn regions_grow(&mut self) -> (r: Result<(), Fault>)
        requires
            old(self).wf(),
        ensures
            final(self).wf(),
            final(self)@ == old(self)@,
            final(self).spec_used() == old(self).spec_used(),
            final(self).spec_page_size() == old(self).spec_page_size(),
            r == if old(self).spec_free() * 4 < old(self).spec_total() && old(self).spec_total() * 2
                > usize::MAX {
                Err::<(), Fault>(Fault::Overflow)
            } else {
                Ok(())
            },
            r is Err ==> *final(self) == *old(self),
            r is Ok ==> final(self).spec_free() * 4 >= final(self).spec_total(),
            final(self).spec_total() == if r is Ok && old(self).spec_free() * 4 < old(self).spec_total() {
                2 * old(self).spec_total()
            } else {
                old(self).spec_total()
            },
    {
        let total = self.regions.len();
        proof {
            self.lemma_wf();
            self.lemma_free_count();
            lemma_table_size(total as int);
        }
        if self.free >= total / 4 {
            return Ok(());
        }
        let count = match total.checked_mul(2) {
            Some(count) => count,
            None => { return Err(Fault::Overflow); },
        };
        self.regions_realloc(count);
        Ok(())
    }

    /// Halves the table when fewer than a sixteenth of its slots are used,
    /// but never below `INITIAL_REGIONS`.
    #[verifier::rlimit(100)]
    fn regions_shrink(&mut self)
        requires
            old(self).wf(),
        ensures
            final(self).wf(),
            final(self)@ == old(self)@,
            final(self).spec_used() == old(self).spec_used(),
            final(self).spec_page_size() == old(self).spec_page_size(),
            final(self).spec_total() == if old(self).spec_total() != INITIAL_REGIONS && old(self).spec_used() * 16 < old(self).spec_total() {
                old(self).spec_total() / 2
            } else {
                old(self).spec_total()
            },
    {
        let total = self.regions.len();
        proof {
            self.lemma_wf();
            self.lemma_free_count();
            lemma_table_size(total as int);
        }
        if total == INITIAL_REGIONS || self.regions_used() >= total / 16 {
            return ;
        }
        let half = total / 2;
        let count = if half > INITIAL_REGIONS { half } else { INITIAL_REGIONS };
        self.regions_realloc(count);
    }

    /// Enters a record for the mapping at `object`, growing the table
    /// first if it is three quarters full. Gives the slot the record went
    /// to.
    pub fn region_insert(&mut self, object: usize, size: usize, chunk: bool, canary_dir: usize) -> (r:
        Result<usize, Fault>)
        requires
            old(self).wf(),
            object != 0,
            !old(self)@.contains_key(old(self).key(object)),
            chunk ==> size == 0 || is_class_size(size, old(self).spec_page_size()),
        ensures
            final(self).wf(),
            final(self).spec_page_size() == old(self).spec_page_size(),
            r is Err <==> old(self).spec_free() * 4 < old(self).spec_total() && old(self).spec_total() * 2 > usize::MAX,
            r matches Err(fault) ==> fault == Fault::Overflow && *final(self) == *old(self),
            r matches Ok(index) ==> {
                &&& index < final(self).spec_total()
                &&& Self::is_new_record(
                    final(self).slots()[index as int],
                    object,
                    size,
                    chunk,
                    canary_dir,
                    old(self).spec_page_size(),
                )
                &&& final(self)@ == old(self)@.insert(
                    old(self).key(object),
                    final(self).slots()[index as int],
                )
                &&& final(self).spec_used() == old(self).spec_used() + 1
                &&& final(self).spec_total() == if old(self).spec_free() * 4 < old(self).spec_total() {
                    2 * old(self).spec_total()
                } else {
                    old(self).spec_total()
                }
            },
    {
        proof {
            reveal(Table::wf);
        }
        match self.regions_grow() {
            Err(fault) => { return Err(fault); },
            Ok(()) => {},
        }
        proof {
            lemma_table_size(self.spec_total());
        }
        let region_index = self.region_pick(object);
        let mut region = Region::vacant();
        let ghost blank = region;
        region.init(object, size, chunk, canary_dir, self.page_size);
        let ghost grown = *self;
        proof {
            assert forall|k: int| 0 <= k < 128 implies region.slot_free(k) == (chunk && size != 0
                && k < region.slots(self.page_size)) by {
                assert(!blank.slot_free(k));
            }
        }
        proof {
            assert(!holds(self.regions@, self.page_size, key_of(object, self.page_size))) by {
                assert(!self@.contains_key(self.key(object)));
            }
            lemma_insert_view(self.regions@, self.page_size, region_index as int, region);
            assert(Self::is_new_record(region, object, size, chunk, canary_dir, self.page_size));
        }
        self.regions[region_index] = region;
        self.free = self.free - 1;
        proof {
            assert(self.regions@ == grown.regions@.update(region_index as int, region));
            assert(self@ == grown@.insert(key_of(object, self.page_size), region));
            assert(self.slots()[region_index as int] == region);
        }
        Ok(region_index)
    }

    /// Removes the record in slot `index`. Records that the unused slot
    /// would cut off from their home slots move up; the table is halved
    /// when it has become sparse.
    pub fn region_delete(&mut self, index: usize)
        requires
            old(self).wf(),
            index < old(self).spec_total(),
            occupied(old(self).slots(), index as int),
        ensures
            final(self).wf(),
            final(self).spec_page_size() == old(self).spec_page_size(),
            final(self)@ == old(self)@.remove(
                old(self).key(old(self).slots()[index as int].object),
            ),
            final(self).spec_used() == old(self).spec_used() - 1,
            final(self).spec_total() == if old(self).spec_total() != INITIAL_REGIONS && (old(self).spec_used() - 1) * 16 < old(self).spec_total() {
                old(self).spec_total() / 2
            } else {
                old(self).spec_total()
            },
    {
        proof {
            reveal(Table::wf);
        }
        let ghost t0 = self.regions@;
        let ghost ps = self.page_size;
        let ghost n = self.spec_total();
        let ghost gone = key_of(t0[index as int].object, ps);
        proof {
            lemma_count_free_bounds(t0);
            lemma_table_size(n);
            lemma_hole_start(t0, ps, index as int);
        }
        let ghost unused = choose|i: int| 0 <= i < n && !#[trigger] occupied(t0, i);
        let total = self.regions.len();
        assert(self.free < total);
        self.free = self.free + 1;
        let mut region = self.regions[index];
        region.set_as_free();
        self.regions[index] = region;
        let mut j = index;
        let mut i = index;
        loop
            invariant_except_break
                hole_inv(self.regions@, ps, j as int, i as int),
                unused != i,
            invariant
                self.regions@.len() == n,
                self.page_size == ps,
                valid_page_size(ps),
                is_table_size(n),
                n <= usize::MAX,
                i < n,
                j < n,
                table_view(self.regions@, ps) == table_view(t0, ps).remove(gone),
                self.free == count_free(self.regions@),
                count_free(self.regions@) == count_free(t0) + 1,
                count_free(t0) * 4 + 4 >= n,
                0 <= unused < n,
                unused != j,
                !occupied(self.regions@, unused),
            ensures
                table_inv(self.regions@, ps),
                self.regions@.len() == n,
                self.page_size == ps,
                table_view(self.regions@, ps) == table_view(t0, ps).remove(gone),
                self.free == count_free(self.regions@),
                count_free(self.regions@) == count_free(t0) + 1,
            decreases probes(i as int, unused, n),
        {
            let ghost seen = i as int;
            i = if i == 0 {
                self.regions.len() - 1
            } else {
                i - 1
            };
            proof {
                assert(occupied(self.regions@, unused) || probes(j as int, unused, n) > probes(
                    j as int,
                    seen,
                    n,
                )) by {
                    let t = self.regions@;
                    if probes(j as int, unused, n) <= probes(j as int, seen, n) {
                        assert(t[unused].kind == RegionType::Free);
                        assert(occupied(t, unused));
                    }
                }
                assert(i != j);
                assert forall|a: int| 0 <= a < n implies 0 <= #[trigger] home_of(
                    self.regions@,
                    ps,
                    a,
                ) < n by {
                    lemma_home_in_range(key_of(self.regions@[a].object, ps), n);
                }
            }
            let region = self.regions[i];
            if region.is_free() {
                proof {
                    lemma_hole_done(self.regions@, ps, j as int, seen, i as int);
                }
                break ;
            }
            let ri = self.object_to_region_index(region.object);
            if (i <= ri && ri < j) || (ri < j && j < i) || (j < i && i <= ri) {
                proof {
                    lemma_hole_keep(self.regions@, ps, j as int, seen, i as int);
                }
            } else {
                proof {
                    lemma_hole_move(self.regions@, ps, j as int, seen, i as int);
                }
                self.regions[j] = region;
                let mut moved = region;
                moved.set_as_free();
                self.regions[i] = moved;
                j = i;
            }
        }
        self.regions_shrink();
    }
}

} // verus!
