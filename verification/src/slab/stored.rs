//! How the lists of free objects lie in memory.

use crate::memory::{self, Memory};
use crate::slab::list;
use crate::slab::model::{self, CacheModel};
use crate::slab::objects;
use crate::slab::PAGE_SIZE;
use vstd::prelude::*;

verus! {

/// The memory holds the slabs, and in it the free objects are linked.
pub open spec fn stored(mem: Memory<'_>, m: CacheModel) -> bool {
    &&& mem.wf()
    &&& forall|s: int|
        0 <= s < m.slabs.len() ==> mem.base() <= (#[trigger] m.slabs[s]).page_start
            && m.slabs[s].page_start + PAGE_SIZE * m.pages <= mem.limit()
    &&& forall|l: int| 0 <= l < m.lists() ==> objects::linked(mem, #[trigger] m.list(l))
}

/// From `m1` to `m2`, the objects that have been handed out have kept their bytes, but for the one
/// at `except`.
pub open spec fn live_kept(m1: Memory<'_>, m2: Memory<'_>, m: CacheModel, except: int) -> bool {
    forall|x: int, b: int|
        #![trigger m.is_live(x), m2.byte_at(b)]
        m.is_live(x) && x != except && x <= b < x + m.size ==> m2.byte_at(b) == m1.byte_at(b)
}

/// The lists stay linked where they are only rearranged.
pub proof fn lemma_stored_rearranged(mem: Memory<'_>, m: CacheModel, n: CacheModel)
    requires
        stored(mem, m),
        model::rearranged(m, n),
    ensures
        stored(mem, n),
{
    assert forall|s: int| 0 <= s < n.slabs.len() implies mem.base() <= (
    #[trigger] n.slabs[s]).page_start && n.slabs[s].page_start + PAGE_SIZE * n.pages
        <= mem.limit() by {
        assert(n.slabs[s].page_start == m.slabs[s].page_start);
    }
    assert forall|l: int| 0 <= l < n.lists() implies objects::linked(
        mem,
        #[trigger] n.list(l),
    ) by {
        if n.list(l).len() > 0 {
            assert(model::has_list(m, n.list(l)));
        }
    }
}

/// The lists stay linked where a free object is taken.
pub proof fn lemma_stored_popped(mem: Memory<'_>, m: CacheModel, c: int)
    requires
        stored(mem, m),
        0 <= c < m.cpus.len(),
        m.state(c).ready(),
    ensures
        stored(mem, m.with_state(c, m.state(c).popped())),
{
    let n = m.with_state(c, m.state(c).popped());
    assert(objects::linked(mem, m.list(c)));
    objects::lemma_linked_rest(mem, m.list(c));
    assert forall|l: int| 0 <= l < n.lists() implies objects::linked(
        mem,
        #[trigger] n.list(l),
    ) by {
        if l == c {
            assert(n.list(l) == m.list(c).drop_last());
        } else {
            assert(n.list(l) == m.list(l));
        }
    }
}

/// An object lies in memory.
pub proof fn lemma_object_stored(mem: Memory<'_>, m: CacheModel, o: int)
    requires
        m.ok(),
        stored(mem, m),
        m.is_object(o),
    ensures
        0 < o,
        mem.has_word(o),
        mem.base() <= o,
        o + m.size <= mem.limit(),
{
    let s = m.slab_of(o);
    assert(0 <= s < m.slabs.len() && m.is_slot(s, o));
    model::lemma_slot_pages(m, s, o);
}

/// A free object is an object.
proof fn lemma_entry_is_object(m: CacheModel, l: int, i: int)
    requires
        m.free_ok(),
        0 <= l < m.lists(),
        0 <= i < m.list(l).len(),
    ensures
        m.is_object(m.list(l)[i] as int),
        m.is_free(m.list(l)[i] as int),
{
    assert(m.entry_ok(l, i));
    assert(m.is_slot(m.owner(l)->0 as int, m.list(l)[i] as int));
}

/// The lists stay linked where an object is given back, and the others keep their bytes.
pub proof fn lemma_stored_returned(
    m1: Memory<'_>,
    m2: Memory<'_>,
    m: CacheModel,
    n: CacheModel,
    to: int,
    o: usize,
)
    requires
        m.ok(),
        stored(m1, m),
        m.is_live(o as int),
        0 <= to < m.lists(),
        memory::wrote(m1, m2, set![o as int]),
        m2.word_at(o as int) == objects::top(m.list(to)),
        model::same_lists(m, n),
        forall|l: int|
            0 <= l < m.lists() ==> #[trigger] n.list(l) == (if l == to {
                m.list(l).push(o)
            } else {
                m.list(l)
            }),
    ensures
        stored(m2, n),
        live_kept(m1, m2, m, o as int),
        m2.base() == m1.base(),
        m2.limit() == m1.limit(),
{
    let t = set![o as int];
    memory::lemma_wrote_shape(m1, m2, t);
    lemma_object_stored(m1, m, o as int);
    assert forall|l: int, i: int|
        0 <= l < m.lists() && 0 <= i < m.list(l).len() implies memory::words_apart(
        #[trigger] m.list(l)[i] as int,
        o as int,
    ) by {
        lemma_entry_is_object(m, l, i);
        model::law_objects_are_disjoint(m, m.list(l)[i] as int, o as int);
    }
    assert forall|l: int| 0 <= l < n.lists() implies objects::linked(m2, #[trigger] n.list(l)) by {
        assert(objects::linked(m1, m.list(l)));
        if l == to {
            objects::lemma_linked_more(m1, m2, m.list(l), o);
        } else {
            objects::lemma_linked_kept(m1, m2, t, m.list(l));
        }
    }
    assert forall|s: int| 0 <= s < n.slabs.len() implies m2.base() <= (
    #[trigger] n.slabs[s]).page_start && n.slabs[s].page_start + PAGE_SIZE * n.pages
        <= m2.limit() by {
        assert(n.slabs[s].page_start == m.slabs[s].page_start);
    }
    assert forall|x: int, b: int|
        #![trigger m.is_live(x), m2.byte_at(b)]
        m.is_live(x) && x != o && x <= b < x + m.size implies m2.byte_at(b) == m1.byte_at(b) by {
        model::law_objects_are_disjoint(m, x, o as int);
        lemma_object_stored(m1, m, x);
        memory::lemma_byte_kept(m1, m2, t, b);
    }
}

/// The lists stay linked where a new slab is made, and the objects keep their bytes.
pub proof fn lemma_stored_grown(
    m1: Memory<'_>,
    m2: Memory<'_>,
    m: CacheModel,
    n: CacheModel,
    page_start: int,
)
    requires
        m.ok(),
        stored(m1, m),
        list::fits(page_start, m.pages, m.size),
        m1.base() <= page_start,
        page_start + PAGE_SIZE * m.pages <= m1.limit(),
        forall|s: int|
            0 <= s < m.slabs.len() ==> model::pages_apart(
                (#[trigger] m.slabs[s]).page_start,
                m.pages,
                page_start,
                m.pages,
            ),
        n == (CacheModel {
            slabs: m.slabs.push(list::new_slab(page_start, m.pages, m.size)),
            ..m
        }),
        memory::wrote(m1, m2, list::slots(page_start, m.pages, m.size)),
        objects::linked(m2, list::new_slab(page_start, m.pages, m.size).free),
    ensures
        stored(m2, n),
        live_kept(m1, m2, m, 0),
        m2.base() == m1.base(),
        m2.limit() == m1.limit(),
{
    let t = list::slots(page_start, m.pages, m.size);
    memory::lemma_wrote_shape(m1, m2, t);
    assert forall|w: int| #[trigger] t.contains(w) implies page_start <= w && w + 8 <= page_start
        + PAGE_SIZE * m.pages by {
        let k = choose|k: nat|
            k < list::per_page(m.size) * m.pages && w == #[trigger] list::object_at(
                page_start,
                m.size,
                k,
            );
        list::lemma_object_in_page(page_start, m.pages, m.size, k);
    }
    // an object of the other slabs lies outside of the new pages
    assert forall|x: int| #[trigger] m.is_object(x) implies x + m.size <= page_start || page_start
        + PAGE_SIZE * m.pages <= x by {
        let s = m.slab_of(x);
        assert(0 <= s < m.slabs.len() && m.is_slot(s, x));
        model::lemma_slot_pages(m, s, x);
        assert(model::pages_apart(m.slabs[s].page_start, m.pages, page_start, m.pages));
    }
    assert forall|l: int| 0 <= l < n.lists() implies objects::linked(m2, #[trigger] n.list(l)) by {
        if l < m.lists() {
            assert(n.list(l) == m.list(l));
            assert(objects::linked(m1, m.list(l)));
            assert forall|i: int| 0 <= i < m.list(l).len() implies memory::clear_of(
                #[trigger] m.list(l)[i] as int,
                t,
            ) by {
                lemma_entry_is_object(m, l, i);
            }
            objects::lemma_linked_kept(m1, m2, t, m.list(l));
        }
    }
    assert forall|s: int| 0 <= s < n.slabs.len() implies m2.base() <= (
    #[trigger] n.slabs[s]).page_start && n.slabs[s].page_start + PAGE_SIZE * n.pages
        <= m2.limit() by {
        if s < m.slabs.len() {
            assert(n.slabs[s] == m.slabs[s]);
        }
    }
    assert forall|x: int, b: int|
        #![trigger m.is_live(x), m2.byte_at(b)]
        m.is_live(x) && x != 0 && x <= b < x + m.size implies m2.byte_at(b) == m1.byte_at(b) by {
        assert(m.is_object(x));
        lemma_object_stored(m1, m, x);
        memory::lemma_byte_kept(m1, m2, t, b);
    }
}

} // verus!
