//! The lists that thread through the region table: per size class the chunks
//! that still have a free slot, and the cache of emptied chunk pages. A list
//! is doubly linked through the `next` and `prev` of its records, which hold
//! the addresses of the neighbours' objects, so that a record can move inside
//! the table without the list noticing.
use vstd::prelude::*;
use vstd::pervasive::unreached;
use crate::region::{Region, RegionType};
use crate::table::{occupied, Table};

verus! {

/// Two records that differ at most in their links.
pub open spec fn same_but_links(a: Region, b: Region) -> bool {
    b == (Region { next: b.next, prev: b.prev, ..a })
}

/// `after` holds the records of `before` with at most the links of the
/// records under `a` and `b` changed.
pub open spec fn links_frame(
    before: Map<usize, Region>,
    after: Map<usize, Region>,
    a: usize,
    b: usize,
) -> bool {
    &&& after.dom() == before.dom()
    &&& forall|key: usize|
        #![trigger after[key]]
        before.contains_key(key) ==> same_but_links(before[key], after[key]) && (key != a && key
            != b ==> after[key] == before[key])
}

/// The records under the addresses in `order` form a list in that order,
/// from `head` to `tail`; both are null for the empty list. Every member is
/// the record of the object at its own address.
pub open spec fn list_inv(m: Map<usize, Region>, order: Seq<usize>, head: usize, tail: usize) -> bool {
    &&& order.no_duplicates()
    &&& head == if order.len() == 0 { 0 } else { order[0] }
    &&& tail == if order.len() == 0 { 0 } else { order[order.len() - 1] }
    &&& forall|k: int|
        #![trigger order[k]]
        0 <= k < order.len() ==> order[k] != 0 && m.contains_key(order[k]) && m[order[k]].object
            == order[k]
    &&& forall|k: int|
        #![trigger m[order[k]].prev]
        0 <= k < order.len() ==> m[order[k]].prev == if k == 0 { 0 } else { order[k - 1] }
    &&& forall|k: int|
        #![trigger m[order[k]].next]
        0 <= k < order.len() ==> m[order[k]].next == if k == order.len() - 1 {
            0
        } else {
            order[k + 1]
        }
}

/// Records that are linked like a list are a list.
pub proof fn lemma_list_intro(m: Map<usize, Region>, order: Seq<usize>, head: usize, tail: usize)
    requires
        order.no_duplicates(),
        head == if order.len() == 0 { 0 } else { order[0] },
        tail == if order.len() == 0 { 0 } else { order[order.len() - 1] },
        forall|k: int|
            #![trigger order[k]]
            0 <= k < order.len() ==> {
                &&& order[k] != 0
                &&& m.contains_key(order[k])
                &&& m[order[k]].object == order[k]
                &&& m[order[k]].prev == if k == 0 { 0 } else { order[k - 1] }
                &&& m[order[k]].next == if k == order.len() - 1 { 0 } else { order[k + 1] }
            },
    ensures
        list_inv(m, order, head, tail),
{
}

/// What being a list says of its member at `k`.
pub proof fn lemma_list_member(
    m: Map<usize, Region>,
    order: Seq<usize>,
    head: usize,
    tail: usize,
    k: int,
)
    requires
        list_inv(m, order, head, tail),
        0 <= k < order.len(),
    ensures
        order[k] != 0,
        m.contains_key(order[k]),
        m[order[k]].object == order[k],
        m[order[k]].prev == if k == 0 { 0 } else { order[k - 1] },
        m[order[k]].next == if k == order.len() - 1 { 0 } else { order[k + 1] },
        order.contains(order[k]),
        k > 0 ==> order[k - 1] != 0 && order.contains(order[k - 1]) && order[k - 1] != order[k],
        k < order.len() - 1 ==> order[k + 1] != 0 && order.contains(order[k + 1]) && order[k + 1]
            != order[k],
{
    let r = m[order[k]];
    assert(r.prev == m[order[k]].prev);
    assert(r.next == m[order[k]].next);
}

/// A list none of whose members had its links changed is still a list.
pub proof fn lemma_list_frame(
    before: Map<usize, Region>,
    after: Map<usize, Region>,
    a: usize,
    b: usize,
    order: Seq<usize>,
    head: usize,
    tail: usize,
)
    requires
        list_inv(before, order, head, tail),
        links_frame(before, after, a, b),
        !order.contains(a),
        !order.contains(b),
    ensures
        list_inv(after, order, head, tail),
{
    assert forall|k: int| #![trigger order[k]] 0 <= k < order.len() implies {
        &&& order[k] != 0
        &&& after.contains_key(order[k])
        &&& after[order[k]].object == order[k]
        &&& after[order[k]].prev == if k == 0 { 0 } else { order[k - 1] }
        &&& after[order[k]].next == if k == order.len() - 1 { 0 } else { order[k + 1] }
    } by {
        lemma_list_member(before, order, head, tail, k);
        assert(after.dom().contains(order[k]));
        assert(after[order[k]] == before[order[k]]);
    }
    lemma_list_intro(after, order, head, tail);
}

/// The slot of the record under the address `object`, which the table is
/// known to hold.
fn index_of(table: &Table, object: usize) -> (index: usize)
    requires
        table.wf(),
        object != 0,
        table@.contains_key(object),
        table@[object].object == object,
    ensures
        index < table.spec_total(),
        occupied(table.slots(), index as int),
        table.slots()[index as int] == table@[object],
{
    proof {
        table.lemma_view(object);
    }
    match table.region_find(object) {
        Some(index) => index,
        None => unreached(),
    }
}

/// Puts the record in slot `region_index` at the head of the list from
/// `start` to `end`, and gives the list's new head and tail.
#[verifier::rlimit(100)]
pub fn list_insert(
    table: &mut Table,
    start: usize,
    end: usize,
    region_index: usize,
    Ghost(order): Ghost<Seq<usize>>,
) -> (ends: (usize, usize))
    requires
        old(table).wf(),
        region_index < old(table).spec_total(),
        occupied(old(table).slots(), region_index as int),
        old(table).key(old(table).slots()[region_index as int].object) == old(table).slots()[region_index as int].object,
        list_inv(old(table)@, order, start, end),
        !order.contains(old(table).slots()[region_index as int].object),
    ensures
        final(table).wf(),
        final(table).spec_page_size() == old(table).spec_page_size(),
        final(table).spec_free() == old(table).spec_free(),
        final(table).slots().len() == old(table).slots().len(),
        forall|i: int|
            #![trigger final(table).slots()[i]]
            0 <= i < old(table).slots().len() ==> same_but_links(
                old(table).slots()[i],
                final(table).slots()[i],
            ),
        ends.0 == old(table).slots()[region_index as int].object,
        list_inv(
            final(table)@,
            seq![old(table).slots()[region_index as int].object] + order,
            ends.0,
            ends.1,
        ),
        links_frame(
            old(table)@,
            final(table)@,
            old(table).slots()[region_index as int].object,
            start,
        ),
{
    let ghost m0 = table@;
    let mut region = *table.region_at_index(region_index);
    let object = region.object;
    proof {
        table.lemma_slot(region_index as int);
    }
    let new_end: usize;
    if start == 0 {
        region.next = 0;
        new_end = object;
    } else {
        assert(order.len() > 0 && order[0] == start);
        region.next = start;
        let first_index = index_of(table, start);
        let mut first = *table.region_at_index(first_index);
        proof {
            table.lemma_view(start);
            assert(order.contains(start));
        }
        first.prev = object;
        table.update(first_index, first);
        new_end = end;
    }
    region.prev = 0;
    table.update(region_index, region);
    proof {
        let m2 = table@;
        let grown = seq![object] + order;
        assert(m2.dom() =~= m0.dom());
        assert(links_frame(m0, m2, object, start));
        assert(list_inv(m2, grown, object, new_end)) by {
        assert forall|k: int| #![trigger grown[k]] 0 <= k < grown.len() implies {
            &&& grown[k] != 0
            &&& m2.contains_key(grown[k])
            &&& m2[grown[k]].object == grown[k]
            &&& m2[grown[k]].prev == if k == 0 { 0 } else { grown[k - 1] }
            &&& m2[grown[k]].next == if k == grown.len() - 1 { 0 } else { grown[k + 1] }
        } by {
            if k > 0 {
                lemma_list_member(m0, order, start, end, k - 1);
                assert(grown[k] == order[k - 1]);
                if k > 1 {
                    assert(grown[k - 1] == order[k - 2]);
                    assert(order[k - 1] != order[0]);
                }
                if k < grown.len() - 1 {
                    assert(grown[k + 1] == order[k]);
                }
            } else {
                if order.len() > 0 {
                    assert(grown[1] == order[0]);
                }
            }
        }
        assert(grown.no_duplicates()) by {
            assert forall|i: int, j: int| 0 <= i < grown.len() && 0 <= j < grown.len() && i != j implies grown[i]
                != grown[j] by {
                if i > 0 {
                    assert(grown[i] == order[i - 1]);
                    assert(order.contains(order[i - 1]));
                }
                if j > 0 {
                    assert(grown[j] == order[j - 1]);
                    assert(order.contains(order[j - 1]));
                }
            }
        }
        lemma_list_intro(m2, grown, object, new_end);
        }
    }
    (object, new_end)
}

/// Takes the record in slot `region_index` out of the list from `start` to
/// `end`, and gives the list's new head and tail. The record keeps its
/// links.
#[verifier::rlimit(100)]
pub fn list_remove(
    table: &mut Table,
    start: usize,
    end: usize,
    region_index: usize,
    Ghost(order): Ghost<Seq<usize>>,
) -> (ends: (usize, usize))
    requires
        old(table).wf(),
        region_index < old(table).spec_total(),
        occupied(old(table).slots(), region_index as int),
        list_inv(old(table)@, order, start, end),
        order.contains(old(table).slots()[region_index as int].object),
    ensures
        final(table).wf(),
        final(table).spec_page_size() == old(table).spec_page_size(),
        final(table).spec_free() == old(table).spec_free(),
        final(table).slots().len() == old(table).slots().len(),
        forall|i: int|
            #![trigger final(table).slots()[i]]
            0 <= i < old(table).slots().len() ==> same_but_links(
                old(table).slots()[i],
                final(table).slots()[i],
            ),
        final(table).slots()[region_index as int] == old(table).slots()[region_index as int],
        list_inv(
            final(table)@,
            order.remove(order.index_of(old(table).slots()[region_index as int].object)),
            ends.0,
            ends.1,
        ),
        links_frame(
            old(table)@,
            final(table)@,
            old(table).slots()[region_index as int].prev,
            old(table).slots()[region_index as int].next,
        ),
{
    let ghost m0 = table@;
    let region = *table.region_at_index(region_index);
    let ghost pos = order.index_of(region.object);
    let ghost rest = order.remove(pos);
    proof {
        table.lemma_slot(region_index as int);
        assert(0 <= pos < order.len() && order[pos] == region.object);
        lemma_list_member(m0, order, start, end, pos);
        assert(m0[region.object] == region) by {
            table.lemma_view(region.object);
        }
        if pos > 0 {
            lemma_list_member(m0, order, start, end, pos - 1);
        }
        if pos < order.len() - 1 {
            lemma_list_member(m0, order, start, end, pos + 1);
        }
    }
    let mut new_start = start;
    let mut new_end = end;
    if region.prev == 0 {
        new_start = region.next;
    } else {
        let prev_index = index_of(table, region.prev);
        let mut prev_region = *table.region_at_index(prev_index);
        prev_region.next = region.next;
        proof {
            table.lemma_view(region.prev);
        }
        table.update(prev_index, prev_region);
    }
    let ghost m1 = table@;
    if region.next == 0 {
        new_end = region.prev;
    } else {
        proof {
            assert(m1.contains_key(region.next));
            assert(m1[region.next].object == region.next);
        }
        let next_index = index_of(table, region.next);
        let mut next_region = *table.region_at_index(next_index);
        next_region.prev = region.prev;
        proof {
            table.lemma_view(region.next);
        }
        table.update(next_index, next_region);
    }
    proof {
        let m2 = table@;
        assert(m2.dom() =~= m0.dom());
        assert(links_frame(m0, m2, region.prev, region.next));
        assert(list_inv(m2, rest, new_start, new_end)) by {
        assert forall|k: int| #![trigger rest[k]] 0 <= k < rest.len() implies {
            &&& rest[k] != 0
            &&& m2.contains_key(rest[k])
            &&& m2[rest[k]].object == rest[k]
            &&& m2[rest[k]].prev == if k == 0 { 0 } else { rest[k - 1] }
            &&& m2[rest[k]].next == if k == rest.len() - 1 { 0 } else { rest[k + 1] }
        } by {
            let k0 = if k < pos { k } else { k + 1 };
            assert(rest[k] == order[k0]);
            lemma_list_member(m0, order, start, end, k0);
            if k > 0 {
                let j0 = if k - 1 < pos { k - 1 } else { k };
                assert(rest[k - 1] == order[j0]);
            }
            if k < rest.len() - 1 {
                let j0 = if k + 1 < pos { k + 1 } else { k + 2 };
                assert(rest[k + 1] == order[j0]);
            }
        }
        assert(rest.no_duplicates()) by {
            assert forall|i: int, j: int| 0 <= i < rest.len() && 0 <= j < rest.len() && i != j implies rest[i]
                != rest[j] by {
                let i0 = if i < pos { i } else { i + 1 };
                let j0 = if j < pos { j } else { j + 1 };
                assert(rest[i] == order[i0] && rest[j] == order[j0]);
            }
        }
        lemma_list_intro(m2, rest, new_start, new_end);
        }
    }
    (new_start, new_end)
}

} // verus!
