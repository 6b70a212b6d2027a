//! What holds of the records of a directory, and what changes to the
//! records and their lists keep it so.
use vstd::prelude::*;
use crate::list::{
    lemma_list_frame, lemma_list_intro, lemma_list_member, links_frame, list_inv, same_but_links,
};
use crate::mmap::{page_ceil, valid_page_size};
use crate::region::{
    MAX_CHUNK_SHIFT, Region, RegionType, lemma_class_size, spec_chunk_index, steps_back,
};
use crate::state::{RegionView, all_slots, mappable, nearest_free, region_view, without};

verus! {

/// What holds of every record of a directory with the canary `canary`.
pub open spec fn record_inv(r: Region, key: usize, canary: usize, page_size: usize) -> bool {
    &&& r.canary == canary ^ r.object
    &&& key >= page_size
    &&& match r.kind {
        RegionType::Chunk => r.object == key && key + 2 * page_size <= usize::MAX && (r.size == 0
            || r.wf_chunk(page_size)),
        RegionType::Cache => r.object == key && key + 2 * page_size <= usize::MAX && r.size == 0,
        RegionType::Large => key + page_ceil(r.size as int, page_size) + page_size <= usize::MAX
            && mappable(r.size, page_size),
        RegionType::Free => false,
    }
}

/// Whether a record is listed where it belongs: the page behind empty
/// allocations in list 0, a chunk in the list of its class while it has a
/// free slot, a cached page in the cache. No chunk is without a taken slot.
pub open spec fn listed_inv(
    r: Region,
    lists: Seq<Seq<usize>>,
    cached: Seq<usize>,
    page_size: usize,
) -> bool {
    match r.kind {
        RegionType::Chunk => if r.size == 0 {
            lists[0].contains(r.object)
        } else {
            &&& lists[spec_chunk_index(r.size) as int].contains(r.object) <==> !r.spec_full(
                page_size,
            )
            &&& !r.spec_empty(page_size)
        },
        RegionType::Cache => cached.contains(r.object),
        _ => true,
    }
}

/// What holds of the records and of the lists' members whatever the links
/// are: every record is in order, every record but the one under `except`
/// is listed where it belongs, the members of list `i` are chunks of class
/// `i`, those of the cache are cached pages, and there is at most one page
/// for empty allocations.
pub open spec fn data_inv(
    m: Map<usize, Region>,
    lists: Seq<Seq<usize>>,
    cached: Seq<usize>,
    canary: usize,
    page_size: usize,
    except: usize,
) -> bool {
    &&& lists.len() == MAX_CHUNK_SHIFT
    &&& lists[0].len() <= 1
    &&& forall|key: usize|
        #![trigger m[key]]
        m.contains_key(key) ==> record_inv(m[key], key, canary, page_size)
    &&& forall|key: usize|
        #![trigger m[key]]
        m.contains_key(key) && key != except ==> listed_inv(m[key], lists, cached, page_size)
    &&& forall|i: int, k: int|
        #![trigger lists[i][k]]
        0 <= i < MAX_CHUNK_SHIFT && 0 <= k < lists[i].len() ==> m.contains_key(lists[i][k])
            && m[lists[i][k]].kind == RegionType::Chunk && spec_chunk_index(m[lists[i][k]].size)
            == i
    &&& forall|k: int|
        #![trigger cached[k]]
        0 <= k < cached.len() ==> m.contains_key(cached[k]) && m[cached[k]].kind
            == RegionType::Cache
}

/// The views of the records.
pub open spec fn views(m: Map<usize, Region>, page_size: usize) -> Map<usize, RegionView> {
    Map::new(|key: usize| m.contains_key(key), |key: usize| region_view(m[key], page_size))
}

/// Records that differ in their links alone look the same.
pub proof fn lemma_links_views(
    before: Map<usize, Region>,
    after: Map<usize, Region>,
    a: usize,
    b: usize,
    page_size: usize,
)
    requires
        links_frame(before, after, a, b),
    ensures
        views(after, page_size) == views(before, page_size),
{
    assert forall|key: usize| before.contains_key(key) implies region_view(after[key], page_size)
        == region_view(before[key], page_size) by {
        let x = before[key];
        let y = after[key];
        assert(same_but_links(x, y));
        assert(y.mapping == x.mapping);
        assert(region_view(y, page_size).free =~= region_view(x, page_size).free);
    }
    assert(views(after, page_size) =~= views(before, page_size));
}

/// What holds whatever the links are still holds when links change.
pub proof fn lemma_links_data(
    before: Map<usize, Region>,
    after: Map<usize, Region>,
    a: usize,
    b: usize,
    lists: Seq<Seq<usize>>,
    cached: Seq<usize>,
    canary: usize,
    page_size: usize,
    except: usize,
)
    requires
        links_frame(before, after, a, b),
        data_inv(before, lists, cached, canary, page_size, except),
    ensures
        data_inv(after, lists, cached, canary, page_size, except),
{
    assert forall|key: usize| #![trigger after[key]] after.contains_key(key) implies record_inv(
        after[key],
        key,
        canary,
        page_size,
    ) && (key != except ==> listed_inv(after[key], lists, cached, page_size)) by {
        let x = before[key];
        let y = after[key];
        assert(before.dom().contains(key));
        assert(same_but_links(x, y));
        assert(y.mapping == x.mapping);
        assert(record_inv(x, key, canary, page_size));
        assert(forall|k: int| y.slot_free(k) == x.slot_free(k));
        assert(y.spec_full(page_size) == x.spec_full(page_size));
        assert(y.spec_empty(page_size) == x.spec_empty(page_size));
        if x.kind == RegionType::Chunk && x.size != 0 {
            assert(y.wf_chunk(page_size));
        }
    }
    assert forall|i: int, k: int|
        #![trigger lists[i][k]]
        0 <= i < MAX_CHUNK_SHIFT && 0 <= k < lists[i].len() implies after.contains_key(lists[i][k])
        && after[lists[i][k]].kind == RegionType::Chunk && spec_chunk_index(
        after[lists[i][k]].size,
    ) == i by {
        let o = lists[i][k];
        assert(before.contains_key(o) && before[o].kind == RegionType::Chunk);
        assert(after.dom().contains(o));
        assert(same_but_links(before[o], after[o]));
    }
    assert forall|k: int| #![trigger cached[k]] 0 <= k < cached.len() implies after.contains_key(
        cached[k],
    ) && after[cached[k]].kind == RegionType::Cache by {
        let o = cached[k];
        assert(before.contains_key(o) && before[o].kind == RegionType::Cache);
        assert(after.dom().contains(o));
        assert(same_but_links(before[o], after[o]));
    }
}

/// The heads and tails are those of the lists.
pub open spec fn lists_inv(
    m: Map<usize, Region>,
    lists: Seq<Seq<usize>>,
    cached: Seq<usize>,
    heads: Seq<usize>,
    tails: Seq<usize>,
    cache1: usize,
    cache2: usize,
) -> bool {
    &&& heads.len() == MAX_CHUNK_SHIFT
    &&& tails.len() == MAX_CHUNK_SHIFT
    &&& forall|i: int|
        #![trigger lists[i]]
        0 <= i < MAX_CHUNK_SHIFT ==> list_inv(m, lists[i], heads[i], tails[i])
    &&& list_inv(m, cached, cache1, cache2)
}

/// No list but that of its class has a chunk for a member.
pub proof fn lemma_elsewhere(
    m: Map<usize, Region>,
    lists: Seq<Seq<usize>>,
    cached: Seq<usize>,
    canary: usize,
    page_size: usize,
    except: usize,
    object: usize,
)
    requires
        data_inv(m, lists, cached, canary, page_size, except),
    ensures
        forall|i: int|
            #![trigger lists[i]]
            0 <= i < MAX_CHUNK_SHIFT && lists[i].contains(object) ==> m.contains_key(object)
                && m[object].kind == RegionType::Chunk && spec_chunk_index(m[object].size) == i,
        cached.contains(object) ==> m.contains_key(object) && m[object].kind == RegionType::Cache,
{
    assert forall|i: int|
        #![trigger lists[i]]
        0 <= i < MAX_CHUNK_SHIFT && lists[i].contains(object) implies m.contains_key(object)
        && m[object].kind == RegionType::Chunk && spec_chunk_index(m[object].size) == i by {
        let k = lists[i].index_of(object);
        assert(lists[i][k] == object);
    }
    if cached.contains(object) {
        let k = cached.index_of(object);
        assert(cached[k] == object);
    }
}

/// The list of a class was relinked into the list `order1`, which differs
/// from it at most in having or not having `except` for a member: the
/// directory's lists are in order again.
pub proof fn lemma_relisted(
    m0: Map<usize, Region>,
    m1: Map<usize, Region>,
    lists: Seq<Seq<usize>>,
    cached: Seq<usize>,
    heads: Seq<usize>,
    tails: Seq<usize>,
    cache1: usize,
    cache2: usize,
    canary: usize,
    page_size: usize,
    except: usize,
    index: int,
    a: usize,
    b: usize,
    order1: Seq<usize>,
    head: usize,
    tail: usize,
)
    requires
        0 <= index < MAX_CHUNK_SHIFT,
        data_inv(m0, lists, cached, canary, page_size, except),
        lists_inv(m0, lists, cached, heads, tails, cache1, cache2),
        links_frame(m0, m1, a, b),
        list_inv(m1, order1, head, tail),
        a == 0 || a == except || lists[index].contains(a),
        b == 0 || b == except || lists[index].contains(b),
        m0.contains_key(except),
        m0[except].kind == RegionType::Chunk,
        m0[except].object == except,
        spec_chunk_index(m0[except].size) == index,
        forall|o: usize| o != except ==> order1.contains(o) == lists[index].contains(o),
        index == 0 ==> order1.len() <= 1,
    ensures
        data_inv(m1, lists.update(index, order1), cached, canary, page_size, except),
        lists_inv(
            m1,
            lists.update(index, order1),
            cached,
            heads.update(index, head),
            tails.update(index, tail),
            cache1,
            cache2,
        ),
{
    let order = lists[index];
    let lists1 = lists.update(index, order1);
    lemma_links_data(m0, m1, a, b, lists, cached, canary, page_size, except);
    lemma_elsewhere(m0, lists, cached, canary, page_size, except, except);
    lemma_elsewhere(m0, lists, cached, canary, page_size, except, a);
    lemma_elsewhere(m0, lists, cached, canary, page_size, except, b);
    assert forall|key: usize| #![trigger m1[key]] m1.contains_key(key) && key != except implies listed_inv(
        m1[key],
        lists1,
        cached,
        page_size,
    ) by {
        let r = m1[key];
        assert(listed_inv(r, lists, cached, page_size));
        assert(record_inv(r, key, canary, page_size));
        if r.kind == RegionType::Chunk {
            let j = spec_chunk_index(r.size) as int;
            if j == index {
                assert(lists1[j] == order1);
                assert(order1.contains(r.object) == order.contains(r.object));
            } else {
                assert(lists1[j] == lists[j]);
            }
        }
    }
    assert forall|i: int, k: int|
        #![trigger lists1[i][k]]
        0 <= i < MAX_CHUNK_SHIFT && 0 <= k < lists1[i].len() implies m1.contains_key(lists1[i][k])
        && m1[lists1[i][k]].kind == RegionType::Chunk && spec_chunk_index(m1[lists1[i][k]].size)
        == i by {
        let o = lists1[i][k];
        if i == index {
            assert(order1.contains(o));
            if o != except {
                assert(order.contains(o));
                let k0 = order.index_of(o);
                assert(lists[index][k0] == o);
                assert(m1.contains_key(lists[index][k0]));
            } else {
                assert(m1.dom().contains(except));
                assert(same_but_links(m0[except], m1[except]));
            }
        } else {
            assert(lists1[i][k] == lists[i][k]);
        }
    }
    assert forall|i: int| #![trigger lists1[i]] 0 <= i < MAX_CHUNK_SHIFT implies list_inv(
        m1,
        lists1[i],
        heads.update(index, head)[i],
        tails.update(index, tail)[i],
    ) by {
        if i != index {
            assert(lists1[i] == lists[i]);
            assert(list_inv(m0, lists[i], heads[i], tails[i]));
            assert forall|k: int| 0 <= k < lists[i].len() implies lists[i][k] != 0 by {}
            lemma_list_frame(m0, m1, a, b, lists[i], heads[i], tails[i]);
        }
    }
    assert forall|k: int| 0 <= k < cached.len() implies cached[k] != 0 by {}
    lemma_list_frame(m0, m1, a, b, cached, cache1, cache2);
}

/// The cache was relinked into the list `order1`, which differs from it
/// at most in having or not having `except` for a member: the directory's
/// lists are in order again.
pub proof fn lemma_recached(
    m0: Map<usize, Region>,
    m1: Map<usize, Region>,
    lists: Seq<Seq<usize>>,
    cached: Seq<usize>,
    heads: Seq<usize>,
    tails: Seq<usize>,
    cache1: usize,
    cache2: usize,
    canary: usize,
    page_size: usize,
    except: usize,
    a: usize,
    b: usize,
    order1: Seq<usize>,
    head: usize,
    tail: usize,
)
    requires
        data_inv(m0, lists, cached, canary, page_size, except),
        lists_inv(m0, lists, cached, heads, tails, cache1, cache2),
        links_frame(m0, m1, a, b),
        list_inv(m1, order1, head, tail),
        a == 0 || a == except || cached.contains(a),
        b == 0 || b == except || cached.contains(b),
        m0.contains_key(except),
        m0[except].kind == RegionType::Cache,
        m0[except].object == except,
        forall|o: usize| o != except ==> order1.contains(o) == cached.contains(o),
    ensures
        data_inv(m1, lists, order1, canary, page_size, except),
        lists_inv(m1, lists, order1, heads, tails, head, tail),
{
    lemma_links_data(m0, m1, a, b, lists, cached, canary, page_size, except);
    lemma_elsewhere(m0, lists, cached, canary, page_size, except, except);
    lemma_elsewhere(m0, lists, cached, canary, page_size, except, a);
    lemma_elsewhere(m0, lists, cached, canary, page_size, except, b);
    assert forall|key: usize| #![trigger m1[key]] m1.contains_key(key) && key != except implies listed_inv(
        m1[key],
        lists,
        order1,
        page_size,
    ) by {
        let r = m1[key];
        assert(listed_inv(r, lists, cached, page_size));
        assert(record_inv(r, key, canary, page_size));
    }
    assert forall|k: int| #![trigger order1[k]] 0 <= k < order1.len() implies m1.contains_key(
        order1[k],
    ) && m1[order1[k]].kind == RegionType::Cache by {
        let o = order1[k];
        assert(order1.contains(o));
        if o != except {
            assert(cached.contains(o));
            let k0 = cached.index_of(o);
            assert(cached[k0] == o);
            assert(m1.contains_key(cached[k0]));
        } else {
            assert(m1.dom().contains(except));
            assert(same_but_links(m0[except], m1[except]));
        }
    }
    assert forall|i: int| #![trigger lists[i]] 0 <= i < MAX_CHUNK_SHIFT implies list_inv(
        m1,
        lists[i],
        heads[i],
        tails[i],
    ) by {
        assert(list_inv(m0, lists[i], heads[i], tails[i]));
        assert forall|k: int| 0 <= k < lists[i].len() implies lists[i][k] != 0 by {}
        lemma_list_frame(m0, m1, a, b, lists[i], heads[i], tails[i]);
    }
}

/// The record under `except` changed in something other than its links,
/// either staying of its kind and class or being in no list: the
/// directory's lists are still in order.
pub proof fn lemma_changed(
    m0: Map<usize, Region>,
    lists: Seq<Seq<usize>>,
    cached: Seq<usize>,
    heads: Seq<usize>,
    tails: Seq<usize>,
    cache1: usize,
    cache2: usize,
    canary: usize,
    page_size: usize,
    except: usize,
    r1: Region,
)
    requires
        data_inv(m0, lists, cached, canary, page_size, except),
        lists_inv(m0, lists, cached, heads, tails, cache1, cache2),
        m0.contains_key(except),
        m0[except].object == except,
        r1.object == except,
        record_inv(r1, except, canary, page_size),
        (r1.next == m0[except].next && r1.prev == m0[except].prev && r1.kind == m0[except].kind
            && spec_chunk_index(r1.size) == spec_chunk_index(m0[except].size)) || (
        !cached.contains(except) && forall|i: int|
            #![trigger lists[i]]
            0 <= i < MAX_CHUNK_SHIFT ==> !lists[i].contains(except)),
    ensures
        data_inv(m0.insert(except, r1), lists, cached, canary, page_size, except),
        lists_inv(m0.insert(except, r1), lists, cached, heads, tails, cache1, cache2),
        views(m0.insert(except, r1), page_size) == views(m0, page_size).insert(
            except,
            region_view(r1, page_size),
        ),
{
    let m1 = m0.insert(except, r1);
    lemma_elsewhere(m0, lists, cached, canary, page_size, except, except);
    assert forall|key: usize| #![trigger m1[key]] m1.contains_key(key) implies record_inv(
        m1[key],
        key,
        canary,
        page_size,
    ) && (key != except ==> listed_inv(m1[key], lists, cached, page_size)) by {
        if key != except {
            assert(m0.contains_key(key) && m1[key] == m0[key]);
            assert(record_inv(m0[key], key, canary, page_size));
        }
    }
    assert forall|i: int, k: int|
        #![trigger lists[i][k]]
        0 <= i < MAX_CHUNK_SHIFT && 0 <= k < lists[i].len() implies m1.contains_key(lists[i][k])
        && m1[lists[i][k]].kind == RegionType::Chunk && spec_chunk_index(m1[lists[i][k]].size)
        == i by {
        let o = lists[i][k];
        assert(m0.contains_key(o) && m0[o].kind == RegionType::Chunk);
        assert(lists[i].contains(o));
    }
    assert forall|k: int| #![trigger cached[k]] 0 <= k < cached.len() implies m1.contains_key(
        cached[k],
    ) && m1[cached[k]].kind == RegionType::Cache by {
        let o = cached[k];
        assert(m0.contains_key(o) && m0[o].kind == RegionType::Cache);
        assert(cached.contains(o));
    }
    assert forall|i: int| #![trigger lists[i]] 0 <= i < MAX_CHUNK_SHIFT implies list_inv(
        m1,
        lists[i],
        heads[i],
        tails[i],
    ) by {
        lemma_same_links(m0, except, r1, lists[i], heads[i], tails[i]);
    }
    lemma_same_links(m0, except, r1, cached, cache1, cache2);
    assert(views(m1, page_size) =~= views(m0, page_size).insert(
        except,
        region_view(r1, page_size),
    ));
}

/// A list is a list whatever its members' records hold besides their
/// object and links.
pub proof fn lemma_same_links(
    m0: Map<usize, Region>,
    key: usize,
    r1: Region,
    order: Seq<usize>,
    head: usize,
    tail: usize,
)
    requires
        list_inv(m0, order, head, tail),
        m0.contains_key(key),
        r1.object == m0[key].object,
        (r1.next == m0[key].next && r1.prev == m0[key].prev) || !order.contains(key),
    ensures
        list_inv(m0.insert(key, r1), order, head, tail),
{
    let m1 = m0.insert(key, r1);
    assert forall|k: int| #![trigger order[k]] 0 <= k < order.len() implies {
        &&& order[k] != 0
        &&& m1.contains_key(order[k])
        &&& m1[order[k]].object == order[k]
        &&& m1[order[k]].prev == if k == 0 { 0 } else { order[k - 1] }
        &&& m1[order[k]].next == if k == order.len() - 1 { 0 } else { order[k + 1] }
    } by {
        lemma_list_member(m0, order, head, tail, k);
    }
    lemma_list_intro(m1, order, head, tail);
}

/// A list with `object` put before it has the members it had, and
/// `object`.
pub proof fn lemma_push_members(order: Seq<usize>, object: usize)
    ensures
        (seq![object] + order).contains(object),
        forall|o: usize| o != object ==> (seq![object] + order).contains(o) == order.contains(o),
        (seq![object] + order).len() == order.len() + 1,
{
    let grown = seq![object] + order;
    assert(grown[0] == object);
    assert forall|o: usize| o != object implies grown.contains(o) == order.contains(o) by {
        if order.contains(o) {
            let k = order.index_of(o);
            assert(grown[k + 1] == o);
        }
        if grown.contains(o) {
            let k = grown.index_of(o);
            assert(order[k - 1] == o);
        }
    }
}

/// A list that has lost its member `object` has the other members it
/// had.
pub proof fn lemma_pop_members(order: Seq<usize>, object: usize)
    requires
        order.no_duplicates(),
        order.contains(object),
    ensures
        !without(order, object).contains(object),
        forall|o: usize| o != object ==> without(order, object).contains(o) == order.contains(o),
        without(order, object).len() == order.len() - 1,
{
    let pos = order.index_of(object);
    let rest = order.remove(pos);
    assert forall|o: usize| o != object implies rest.contains(o) == order.contains(o) by {
        if order.contains(o) {
            let k = order.index_of(o);
            if k < pos {
                assert(rest[k] == o);
            } else {
                assert(rest[k - 1] == o);
            }
        }
        if rest.contains(o) {
            let k = rest.index_of(o);
            if k < pos {
                assert(order[k] == o);
            } else {
                assert(order[k + 1] == o);
            }
        }
    }
    if rest.contains(object) {
        let k = rest.index_of(object);
        if k < pos {
            assert(order[k] == object);
        } else {
            assert(order[k + 1] == object);
        }
    }
}

/// A record entered under a key of its own, in no list: the directory's
/// lists are still in order.
pub proof fn lemma_added(
    m0: Map<usize, Region>,
    lists: Seq<Seq<usize>>,
    cached: Seq<usize>,
    heads: Seq<usize>,
    tails: Seq<usize>,
    cache1: usize,
    cache2: usize,
    canary: usize,
    page_size: usize,
    except: usize,
    key: usize,
    r1: Region,
)
    requires
        data_inv(m0, lists, cached, canary, page_size, except),
        lists_inv(m0, lists, cached, heads, tails, cache1, cache2),
        !m0.contains_key(key),
        record_inv(r1, key, canary, page_size),
        except == key || listed_inv(r1, lists, cached, page_size),
    ensures
        data_inv(m0.insert(key, r1), lists, cached, canary, page_size, except),
        lists_inv(m0.insert(key, r1), lists, cached, heads, tails, cache1, cache2),
        views(m0.insert(key, r1), page_size) == views(m0, page_size).insert(
            key,
            region_view(r1, page_size),
        ),
{
    let m1 = m0.insert(key, r1);
    assert forall|k: usize| #![trigger m1[k]] m1.contains_key(k) implies record_inv(
        m1[k],
        k,
        canary,
        page_size,
    ) && (k != except ==> listed_inv(m1[k], lists, cached, page_size)) by {
        if k != key {
            assert(m0.contains_key(k) && m1[k] == m0[k]);
            assert(record_inv(m0[k], k, canary, page_size));
        }
    }
    assert forall|i: int, k: int|
        #![trigger lists[i][k]]
        0 <= i < MAX_CHUNK_SHIFT && 0 <= k < lists[i].len() implies m1.contains_key(lists[i][k])
        && m1[lists[i][k]].kind == RegionType::Chunk && spec_chunk_index(m1[lists[i][k]].size)
        == i by {
        assert(m0.contains_key(lists[i][k]));
    }
    assert forall|k: int| #![trigger cached[k]] 0 <= k < cached.len() implies m1.contains_key(
        cached[k],
    ) && m1[cached[k]].kind == RegionType::Cache by {
        assert(m0.contains_key(cached[k]));
    }
    assert forall|i: int| #![trigger lists[i]] 0 <= i < MAX_CHUNK_SHIFT implies list_inv(
        m1,
        lists[i],
        heads[i],
        tails[i],
    ) by {
        lemma_list_kept(m0, key, r1, lists[i], heads[i], tails[i]);
    }
    lemma_list_kept(m0, key, r1, cached, cache1, cache2);
    assert(views(m1, page_size) =~= views(m0, page_size).insert(key, region_view(r1, page_size)));
}

/// A list does not notice a record entered under a key of its own.
pub proof fn lemma_list_kept(
    m0: Map<usize, Region>,
    key: usize,
    r1: Region,
    order: Seq<usize>,
    head: usize,
    tail: usize,
)
    requires
        list_inv(m0, order, head, tail),
        !m0.contains_key(key),
    ensures
        list_inv(m0.insert(key, r1), order, head, tail),
{
    let m1 = m0.insert(key, r1);
    assert forall|k: int| #![trigger order[k]] 0 <= k < order.len() implies {
        &&& order[k] != 0
        &&& m1.contains_key(order[k])
        &&& m1[order[k]].object == order[k]
        &&& m1[order[k]].prev == if k == 0 { 0 } else { order[k - 1] }
        &&& m1[order[k]].next == if k == order.len() - 1 { 0 } else { order[k + 1] }
    } by {
        lemma_list_member(m0, order, head, tail, k);
    }
    lemma_list_intro(m1, order, head, tail);
}

/// A record left that was in no list: the directory's lists are still in
/// order.
pub proof fn lemma_dropped(
    m0: Map<usize, Region>,
    lists: Seq<Seq<usize>>,
    cached: Seq<usize>,
    heads: Seq<usize>,
    tails: Seq<usize>,
    cache1: usize,
    cache2: usize,
    canary: usize,
    page_size: usize,
    key: usize,
)
    requires
        data_inv(m0, lists, cached, canary, page_size, key),
        lists_inv(m0, lists, cached, heads, tails, cache1, cache2),
        m0.contains_key(key),
        !cached.contains(key),
        forall|i: int| #![trigger lists[i]] 0 <= i < MAX_CHUNK_SHIFT ==> !lists[i].contains(key),
    ensures
        data_inv(m0.remove(key), lists, cached, canary, page_size, 0),
        lists_inv(m0.remove(key), lists, cached, heads, tails, cache1, cache2),
        views(m0.remove(key), page_size) == views(m0, page_size).remove(key),
{
    let m1 = m0.remove(key);
    assert forall|k: usize| #![trigger m1[k]] m1.contains_key(k) implies record_inv(
        m1[k],
        k,
        canary,
        page_size,
    ) && listed_inv(m1[k], lists, cached, page_size) by {
        assert(m0.contains_key(k) && m1[k] == m0[k]);
        assert(record_inv(m0[k], k, canary, page_size));
    }
    assert forall|i: int, k: int|
        #![trigger lists[i][k]]
        0 <= i < MAX_CHUNK_SHIFT && 0 <= k < lists[i].len() implies m1.contains_key(lists[i][k])
        && m1[lists[i][k]].kind == RegionType::Chunk && spec_chunk_index(m1[lists[i][k]].size)
        == i by {
        assert(m0.contains_key(lists[i][k]));
        assert(lists[i].contains(lists[i][k]));
    }
    assert forall|k: int| #![trigger cached[k]] 0 <= k < cached.len() implies m1.contains_key(
        cached[k],
    ) && m1[cached[k]].kind == RegionType::Cache by {
        assert(m0.contains_key(cached[k]));
        assert(cached.contains(cached[k]));
    }
    assert forall|i: int| #![trigger lists[i]] 0 <= i < MAX_CHUNK_SHIFT implies list_inv(
        m1,
        lists[i],
        heads[i],
        tails[i],
    ) by {
        lemma_list_left(m0, key, lists[i], heads[i], tails[i]);
    }
    lemma_list_left(m0, key, cached, cache1, cache2);
    assert(views(m1, page_size) =~= views(m0, page_size).remove(key));
}

/// A list does not notice a record leave that is not a member.
pub proof fn lemma_list_left(
    m0: Map<usize, Region>,
    key: usize,
    order: Seq<usize>,
    head: usize,
    tail: usize,
)
    requires
        list_inv(m0, order, head, tail),
        !order.contains(key),
    ensures
        list_inv(m0.remove(key), order, head, tail),
{
    let m1 = m0.remove(key);
    assert forall|k: int| #![trigger order[k]] 0 <= k < order.len() implies {
        &&& order[k] != 0
        &&& m1.contains_key(order[k])
        &&& m1[order[k]].object == order[k]
        &&& m1[order[k]].prev == if k == 0 { 0 } else { order[k - 1] }
        &&& m1[order[k]].next == if k == order.len() - 1 { 0 } else { order[k + 1] }
    } by {
        lemma_list_member(m0, order, head, tail, k);
    }
    lemma_list_intro(m1, order, head, tail);
}

/// The slot that a walk down from `start` meets first is the nearest free
/// one.
pub proof fn lemma_nearest(free: Set<int>, n: int, start: int, slot: int)
    requires
        0 <= start < n,
        0 <= slot < n,
        free.contains(slot),
        forall|j: int|
            0 <= j < n && steps_back(start, j, n) < steps_back(start, slot, n) ==> !free.contains(j),
    ensures
        nearest_free(free, n, start) == slot,
{
    let k = nearest_free(free, n, start);
    assert(0 <= slot < n && free.contains(slot) && forall|j: int|
        0 <= j < n && free.contains(j) ==> steps_back(start, slot, n) <= steps_back(start, j, n));
    assert(steps_back(start, k, n) <= steps_back(start, slot, n));
    assert(steps_back(start, slot, n) <= steps_back(start, k, n));
}

/// What the free slots of a chunk's view say of its bitmap.
pub proof fn lemma_free_set(r: Region, page_size: usize)
    requires
        valid_page_size(page_size),
        r.kind == RegionType::Chunk,
        r.size != 0,
        r.wf_chunk(page_size),
    ensures
        r.spec_full(page_size) <==> region_view(r, page_size).free == Set::<int>::empty(),
        r.spec_empty(page_size) <==> region_view(r, page_size).free == all_slots(r.size, page_size),
        forall|k: int|
            region_view(r, page_size).free.contains(k) <==> 0 <= k < r.slots(page_size)
                && r.slot_free(k),
{
    let free = region_view(r, page_size).free;
    lemma_class_size(r.size, page_size);
    if r.spec_full(page_size) {
        assert(free =~= Set::<int>::empty());
    }
    if free == Set::<int>::empty() {
        assert forall|k: int| 0 <= k < r.slots(page_size) implies !r.slot_free(k) by {
            assert(!free.contains(k));
        }
    }
    if r.spec_empty(page_size) {
        assert(free =~= all_slots(r.size, page_size));
    }
    if free == all_slots(r.size, page_size) {
        assert forall|k: int| 0 <= k < r.slots(page_size) implies r.slot_free(k) by {
            assert(all_slots(r.size, page_size).contains(k));
            assert(free.contains(k));
        }
    }
}

/// The view of a chunk one of whose slots was given back.
pub proof fn lemma_freed_view(r0: Region, r1: Region, page_size: usize, slot: int)
    requires
        valid_page_size(page_size),
        r0.kind == RegionType::Chunk,
        r0.size != 0,
        r0.wf_chunk(page_size),
        0 <= slot < r0.slots(page_size),
        r0.slot_changed(r1, slot, true),
    ensures
        region_view(r1, page_size) == (RegionView {
            free: region_view(r0, page_size).free.insert(slot),
            ..region_view(r0, page_size)
        }),
        r1.wf_chunk(page_size),
        !r1.spec_full(page_size),
{
    lemma_class_size(r0.size, page_size);
    assert(region_view(r1, page_size).free =~= region_view(r0, page_size).free.insert(slot));
    assert(r1.slot_free(slot));
}

} // verus!
