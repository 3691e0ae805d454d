//! Which objects are free, and where.

use crate::slab::PAGE_SIZE;
use crate::slab::cpu;
use crate::slab::list;
use vstd::prelude::*;

verus! {

/// What an allocator of objects holds.
pub struct CacheModel {
    /// What each cpu keeps.
    pub cpus: Seq<cpu::CpuModel>,
    /// All slabs.
    pub slabs: Seq<list::SlabModel>,
    /// The size of an object.
    pub size: nat,
    /// The number of pages of a slab.
    pub pages: nat,
    /// The number of slabs from which on one without objects in use is given up.
    pub max_partial: nat,
}

/// The byte at `x` is in one of the pages from `start` on.
pub open spec fn in_pages(start: int, pages: nat, x: int) -> bool {
    start <= x < start + PAGE_SIZE * pages
}

/// Two runs of pages have no byte in common.
pub open spec fn pages_apart(start: int, pages: nat, other: int, others: nat) -> bool {
    start + PAGE_SIZE * pages <= other || other + PAGE_SIZE * others <= start
}

impl CacheModel {
    /// What the cpu `c` keeps, and all slabs.
    pub open spec fn state(self, c: int) -> cpu::CpuState {
        cpu::CpuState { cpu: self.cpus[c], slabs: self.slabs }
    }

    /// The model after `state` has become what the cpu `c` keeps, and the slabs.
    pub open spec fn with_state(self, c: int, state: cpu::CpuState) -> CacheModel {
        CacheModel { cpus: self.cpus.update(c, state.cpu), slabs: state.slabs, ..self }
    }

    /// The number of lists of free objects.
    pub open spec fn lists(self) -> nat {
        self.cpus.len() + self.slabs.len()
    }

    /// The free objects of a cpu, or those of a slab.
    pub open spec fn list(self, l: int) -> Seq<usize> {
        if l < self.cpus.len() {
            self.cpus[l].free
        } else {
            self.slabs[l - self.cpus.len()].free
        }
    }

    /// The slab to which the objects of a list belong.
    pub open spec fn owner(self, l: int) -> Option<usize> {
        if l < self.cpus.len() {
            self.cpus[l].slab
        } else {
            Some((l - self.cpus.len()) as usize)
        }
    }

    /// `o` is the address of an object of the slab.
    pub open spec fn is_slot(self, slab: int, o: int) -> bool {
        exists|k: nat|
            k < list::per_page(self.size) * self.pages && o
                == #[trigger] list::object_at(
                self.slabs[slab].page_start,
                self.size,
                k,
            )
    }

    /// The free object at index `i` of list `l` is an object of the slab that the list is for.
    pub open spec fn entry_ok(self, l: int, i: int) -> bool {
        &&& self.owner(l) is Some
        &&& self.owner(l)->0 < self.slabs.len()
        &&& self.is_slot(self.owner(l)->0 as int, self.list(l)[i] as int)
    }

    /// The free objects belong to slabs, and none is free twice.
    pub open spec fn free_ok(self) -> bool {
        &&& forall|l: int, i: int|
            0 <= l < self.lists() && 0 <= i < self.list(l).len() ==> #[trigger] self.entry_ok(l, i)
        &&& forall|l: int, i: int, k: int, j: int|
            0 <= l < self.lists() && 0 <= k < self.lists() && 0 <= i < self.list(l).len() && 0 <= j
                < self.list(k).len() && !(l == k && i == j) ==> #[trigger] self.list(l)[i]
                != #[trigger] self.list(k)[j]
    }

    /// The slabs lie in pages of their own.
    pub open spec fn pages_ok(self) -> bool {
        &&& forall|s: int|
            0 <= s < self.slabs.len() ==> list::fits(
                (#[trigger] self.slabs[s]).page_start,
                self.pages,
                self.size,
            ) && self.slabs[s].page_start % (PAGE_SIZE as int) == 0
        &&& forall|s: int, t: int|
            0 <= s < t < self.slabs.len() ==> pages_apart(
                (#[trigger] self.slabs[s]).page_start,
                self.pages,
                (#[trigger] self.slabs[t]).page_start,
                self.pages,
            )
        &&& self.slabs.len() <= usize::MAX
    }

    /// What holds of each state of an allocator.
    pub open spec fn ok(self) -> bool {
        &&& self.size >= 8
        &&& forall|c: int| 0 <= c < self.cpus.len() ==> (#[trigger] self.state(c)).ok()
        &&& list::links_known(self.slabs)
        &&& self.pages_ok()
        &&& self.free_ok()
    }

    /// The object at `o` is in a list of free objects.
    pub open spec fn is_free(self, o: int) -> bool {
        exists|l: int, i: int|
            0 <= l < self.lists() && 0 <= i < self.list(l).len() && #[trigger] self.list(l)[i] == o
    }

    /// There is an object at `o`.
    pub open spec fn is_object(self, o: int) -> bool {
        exists|s: int| 0 <= s < self.slabs.len() && #[trigger] self.is_slot(s, o)
    }

    /// The slab of the object at `o`.
    pub open spec fn slab_of(self, o: int) -> int {
        choose|s: int| 0 <= s < self.slabs.len() && #[trigger] self.is_slot(s, o)
    }

    /// Giving back an object of `slab` on cpu `c` makes that slab be given up.
    pub open spec fn gives_up(self, c: int, slab: int) -> bool {
        let s = self.slabs[slab];
        &&& self.cpus[c].slab != Some(slab as usize)
        &&& !s.frozen
        &&& !s.is_full()
        &&& s.inuse == 1
        &&& self.max_partial == 0
    }

    /// `slab` is the active slab of a cpu or the first of its list.
    pub open spec fn is_placed_at(self, c: int, slab: int) -> bool {
        self.cpus[c].slab == Some(slab as usize) || self.cpus[c].head == Some(slab as usize)
    }

    /// No place of the cpu `c` has the same slab as another place of the cpu `d`.
    pub open spec fn places_differ(self, c: int, d: int) -> bool {
        let cpu = self.cpus[c];
        let other = self.cpus[d];
        &&& cpu.slab is Some ==> cpu.slab != other.head && (c != d ==> cpu.slab != other.slab)
        &&& cpu.head is Some && c != d ==> cpu.head != other.head
    }

    /// No slab is in two places.
    pub open spec fn apart(self) -> bool {
        forall|c: int, d: int|
            0 <= c < self.cpus.len() && 0 <= d < self.cpus.len() ==> #[trigger] self.places_differ(
                c,
                d,
            )
    }

    /// No slab is in two places, the active slabs are marked, and those in a list have an object
    /// that is not in use.
    pub open spec fn placed_once(self) -> bool {
        &&& forall|s: int|
            0 <= s < self.slabs.len() ==> (#[trigger] self.slabs[s]).inuse <= self.slabs[s].objects
        &&& forall|c: int|
            0 <= c < self.cpus.len() ==> {
                let cpu = #[trigger] self.cpus[c];
                &&& cpu.slab is Some ==> self.slabs[cpu.slab->0 as int].frozen && cpu.slab
                    != cpu.head
                &&& cpu.head is Some ==> !self.slabs[cpu.head->0 as int].is_full()
            }
        &&& forall|c: int, d: int|
            0 <= c < self.cpus.len() && 0 <= d < self.cpus.len() && c != d ==> {
                let cpu = #[trigger] self.cpus[c];
                let other = #[trigger] self.cpus[d];
                &&& cpu.slab is Some ==> cpu.slab != other.slab && cpu.slab != other.head
                &&& cpu.head is Some ==> cpu.head != other.head
            }
    }

    /// Giving back an object of `slab` on cpu `c` keeps each slab in one place: the slab is the
    /// active one, or it counts an object as in use.
    pub open spec fn keeps_places(self, c: int, slab: int) -> bool {
        self.cpus[c].slab == Some(slab as usize) || self.slabs[slab].inuse > 0
    }

    /// The length of the list of cpu `c` fits its type once an object of `slab` has been given back
    /// there.
    pub open spec fn can_return(self, c: int, slab: int) -> bool {
        let s = self.slabs[slab];
        self.cpus[c].slab != Some(slab as usize) && !s.frozen && s.is_full() ==> self.cpus[c].len
            < usize::MAX
    }

    /// The object at `o` has been handed out.
    pub open spec fn is_live(self, o: int) -> bool {
        self.is_object(o) && !self.is_free(o)
    }
}

/// The lists are the same.
pub open spec fn same_lists(m: CacheModel, n: CacheModel) -> bool {
    &&& n.cpus.len() == m.cpus.len()
    &&& n.slabs.len() == m.slabs.len()
    &&& n.size == m.size
    &&& n.pages == m.pages
    &&& forall|s: int|
        0 <= s < m.slabs.len() ==> (#[trigger] n.slabs[s]).page_start == m.slabs[s].page_start
}

proof fn lemma_same_slots(m: CacheModel, n: CacheModel, s: int, o: int)
    requires
        same_lists(m, n),
        0 <= s < m.slabs.len(),
    ensures
        n.is_slot(s, o) == m.is_slot(s, o),
{
    assert(n.slabs[s].page_start == m.slabs[s].page_start);
}

/// Free objects stay in order where the lists stay.
pub proof fn lemma_kept(m: CacheModel, n: CacheModel)
    requires
        m.free_ok(),
        same_lists(m, n),
        forall|l: int| 0 <= l < m.lists() ==> #[trigger] n.list(l) == m.list(l),
        forall|l: int|
            0 <= l < m.lists() && m.list(l).len() > 0 ==> #[trigger] n.owner(l) == m.owner(l),
    ensures
        n.free_ok(),
        forall|o: int| #[trigger] n.is_free(o) == m.is_free(o),
        forall|o: int| #[trigger] n.is_object(o) == m.is_object(o),
{
    assert forall|l: int, i: int|
        0 <= l < n.lists() && 0 <= i < n.list(l).len() implies #[trigger] n.entry_ok(l, i) by {
        assert(m.entry_ok(l, i));
        lemma_same_slots(m, n, m.owner(l)->0 as int, m.list(l)[i] as int);
    }
    assert forall|o: int| #[trigger] n.is_free(o) == m.is_free(o) by {
        if n.is_free(o) {
            let (l, i) = choose|l: int, i: int|
                0 <= l < n.lists() && 0 <= i < n.list(l).len() && #[trigger] n.list(l)[i] == o;
            assert(m.list(l)[i] == o);
        }
        if m.is_free(o) {
            let (l, i) = choose|l: int, i: int|
                0 <= l < m.lists() && 0 <= i < m.list(l).len() && #[trigger] m.list(l)[i] == o;
            assert(n.list(l)[i] == o);
        }
    }
    lemma_same_objects(m, n);
}

/// There are the same objects where the slabs have the same pages.
pub proof fn lemma_same_objects(m: CacheModel, n: CacheModel)
    requires
        same_lists(m, n),
    ensures
        forall|o: int| #[trigger] n.is_object(o) == m.is_object(o),
{
    assert forall|o: int| #[trigger] n.is_object(o) == m.is_object(o) by {
        if n.is_object(o) {
            let s = choose|s: int| 0 <= s < n.slabs.len() && #[trigger] n.is_slot(s, o);
            lemma_same_slots(m, n, s, o);
        }
        if m.is_object(o) {
            let s = choose|s: int| 0 <= s < m.slabs.len() && #[trigger] m.is_slot(s, o);
            lemma_same_slots(m, n, s, o);
        }
    }
}

/// Free objects stay in order where one list becomes another, which was empty.
pub proof fn lemma_moved(m: CacheModel, n: CacheModel, from: int, to: int)
    requires
        m.free_ok(),
        same_lists(m, n),
        0 <= from < m.lists(),
        0 <= to < m.lists(),
        from != to,
        m.list(to).len() == 0,
        n.list(to) == m.list(from),
        n.list(from).len() == 0,
        n.owner(to) == m.owner(from),
        forall|l: int|
            0 <= l < m.lists() && l != from && l != to ==> #[trigger] n.list(l) == m.list(l)
                && n.owner(l) == m.owner(l),
    ensures
        n.free_ok(),
        forall|o: int| #[trigger] n.is_free(o) == m.is_free(o),
        forall|o: int| #[trigger] n.is_object(o) == m.is_object(o),
{
    assert forall|l: int, i: int|
        0 <= l < n.lists() && 0 <= i < n.list(l).len() implies #[trigger] n.entry_ok(l, i) by {
        let k = if l == to {
            from
        } else {
            l
        };
        assert(n.list(l) == m.list(k));
        assert(m.entry_ok(k, i));
        lemma_same_slots(m, n, m.owner(k)->0 as int, m.list(k)[i] as int);
    }
    assert forall|l: int, i: int, k: int, j: int|
        0 <= l < n.lists() && 0 <= k < n.lists() && 0 <= i < n.list(l).len() && 0 <= j < n.list(
            k,
        ).len() && !(l == k && i == j) implies #[trigger] n.list(l)[i] != #[trigger] n.list(
        k,
    )[j] by {
        let l0 = if l == to {
            from
        } else {
            l
        };
        let k0 = if k == to {
            from
        } else {
            k
        };
        assert(n.list(l) == m.list(l0));
        assert(n.list(k) == m.list(k0));
        assert(m.list(l0)[i] != m.list(k0)[j]);
    }
    assert forall|o: int| #[trigger] n.is_free(o) == m.is_free(o) by {
        if n.is_free(o) {
            let (l, i) = choose|l: int, i: int|
                0 <= l < n.lists() && 0 <= i < n.list(l).len() && #[trigger] n.list(l)[i] == o;
            if l == to {
                assert(m.list(from)[i] == o);
            } else {
                assert(n.list(l) == m.list(l));
                assert(m.list(l)[i] == o);
            }
        }
        if m.is_free(o) {
            let (l, i) = choose|l: int, i: int|
                0 <= l < m.lists() && 0 <= i < m.list(l).len() && #[trigger] m.list(l)[i] == o;
            if l == from {
                assert(n.list(to)[i] == o);
            } else {
                assert(n.list(l) == m.list(l));
                assert(n.list(l)[i] == o);
            }
        }
    }
    lemma_same_objects(m, n);
}

/// Free objects stay in order where one that has been handed out comes to a list of its slab.
pub proof fn lemma_added(m: CacheModel, n: CacheModel, to: int, o: usize)
    requires
        m.free_ok(),
        same_lists(m, n),
        0 <= to < m.lists(),
        !m.is_free(o as int),
        m.owner(to) is Some,
        m.owner(to)->0 < m.slabs.len(),
        m.is_slot(m.owner(to)->0 as int, o as int),
        n.list(to) == m.list(to).push(o),
        n.owner(to) == m.owner(to),
        forall|l: int|
            0 <= l < m.lists() && l != to ==> #[trigger] n.list(l) == m.list(l) && n.owner(l)
                == m.owner(l),
    ensures
        n.free_ok(),
        forall|x: int| #[trigger] n.is_free(x) == (m.is_free(x) || x == o),
        forall|x: int| #[trigger] n.is_object(x) == m.is_object(x),
{
    let last = m.list(to).len() as int;
    assert forall|l: int, i: int|
        0 <= l < n.lists() && 0 <= i < n.list(l).len() implies #[trigger] n.entry_ok(l, i) by {
        if l == to && i == last {
            lemma_same_slots(m, n, m.owner(to)->0 as int, o as int);
        } else {
            if l != to {
                assert(n.list(l) == m.list(l));
            }
            assert(m.entry_ok(l, i));
            lemma_same_slots(m, n, m.owner(l)->0 as int, m.list(l)[i] as int);
        }
    }
    assert forall|l: int, i: int, k: int, j: int|
        0 <= l < n.lists() && 0 <= k < n.lists() && 0 <= i < n.list(l).len() && 0 <= j < n.list(
            k,
        ).len() && !(l == k && i == j) implies #[trigger] n.list(l)[i] != #[trigger] n.list(
        k,
    )[j] by {
        if l != to {
            assert(n.list(l) == m.list(l));
        }
        if k != to {
            assert(n.list(k) == m.list(k));
        }
        if !(l == to && i == last) && !(k == to && j == last) {
            assert(m.list(l)[i] != m.list(k)[j]);
        } else if l == to && i == last {
            assert(m.list(k)[j] == n.list(k)[j]);
        } else {
            assert(m.list(l)[i] == n.list(l)[i]);
        }
    }
    assert forall|x: int| #[trigger] n.is_free(x) == (m.is_free(x) || x == o) by {
        if n.is_free(x) {
            let (l, i) = choose|l: int, i: int|
                0 <= l < n.lists() && 0 <= i < n.list(l).len() && #[trigger] n.list(l)[i] == x;
            if !(l == to && i == last) {
                if l != to {
                    assert(n.list(l) == m.list(l));
                }
                assert(m.list(l)[i] == x);
            }
        }
        if m.is_free(x) {
            let (l, i) = choose|l: int, i: int|
                0 <= l < m.lists() && 0 <= i < m.list(l).len() && #[trigger] m.list(l)[i] == x;
            if l != to {
                assert(n.list(l) == m.list(l));
            }
            assert(n.list(l)[i] == x);
        }
        if x == o {
            assert(n.list(to)[last] == x);
        }
    }
    lemma_same_objects(m, n);
}

/// Free objects stay in order where one leaves the end of a list.
pub proof fn lemma_removed(m: CacheModel, n: CacheModel, from: int)
    requires
        m.free_ok(),
        same_lists(m, n),
        0 <= from < m.lists(),
        m.list(from).len() > 0,
        n.list(from) == m.list(from).drop_last(),
        n.owner(from) == m.owner(from),
        forall|l: int|
            0 <= l < m.lists() && l != from ==> #[trigger] n.list(l) == m.list(l) && n.owner(l)
                == m.owner(l),
    ensures
        n.free_ok(),
        forall|x: int| #[trigger] n.is_free(x) == (m.is_free(x) && x != m.list(from).last()),
        forall|x: int| #[trigger] n.is_object(x) == m.is_object(x),
        m.is_free(m.list(from).last() as int),
        m.is_object(m.list(from).last() as int),
{
    let last = m.list(from).len() - 1;
    let o = m.list(from)[last];
    assert forall|l: int, i: int|
        0 <= l < n.lists() && 0 <= i < n.list(l).len() implies #[trigger] n.entry_ok(l, i) by {
        if l != from {
            assert(n.list(l) == m.list(l));
        }
        assert(m.entry_ok(l, i));
        lemma_same_slots(m, n, m.owner(l)->0 as int, m.list(l)[i] as int);
    }
    assert forall|l: int, i: int, k: int, j: int|
        0 <= l < n.lists() && 0 <= k < n.lists() && 0 <= i < n.list(l).len() && 0 <= j < n.list(
            k,
        ).len() && !(l == k && i == j) implies #[trigger] n.list(l)[i] != #[trigger] n.list(
        k,
    )[j] by {
        if l != from {
            assert(n.list(l) == m.list(l));
        }
        if k != from {
            assert(n.list(k) == m.list(k));
        }
        assert(m.list(l)[i] != m.list(k)[j]);
    }
    assert forall|x: int| #[trigger] n.is_free(x) == (m.is_free(x) && x != o) by {
        if n.is_free(x) {
            let (l, i) = choose|l: int, i: int|
                0 <= l < n.lists() && 0 <= i < n.list(l).len() && #[trigger] n.list(l)[i] == x;
            if l != from {
                assert(n.list(l) == m.list(l));
            }
            assert(m.list(l)[i] == x);
            assert(m.list(l)[i] != m.list(from)[last]);
        }
        if m.is_free(x) && x != o {
            let (l, i) = choose|l: int, i: int|
                0 <= l < m.lists() && 0 <= i < m.list(l).len() && #[trigger] m.list(l)[i] == x;
            if l != from {
                assert(n.list(l) == m.list(l));
            }
            assert(n.list(l)[i] == x);
        }
    }
    assert(m.list(from)[last] == o);
    assert(m.entry_ok(from, last));
    lemma_same_objects(m, n);
}

/// Free objects stay in order where a new slab is added.
pub proof fn lemma_grown(m: CacheModel, n: CacheModel, page_start: int)
    requires
        m.ok(),
        m.slabs.len() < usize::MAX,
        list::fits(page_start, m.pages, m.size),
        page_start % (PAGE_SIZE as int) == 0,
        forall|s: int|
            0 <= s < m.slabs.len() ==> pages_apart(
                (#[trigger] m.slabs[s]).page_start,
                m.pages,
                page_start,
                m.pages,
            ),
        n == (CacheModel {
            slabs: m.slabs.push(list::new_slab(page_start, m.pages, m.size)),
            ..m
        }),
    ensures
        n.ok(),
        forall|x: int| #[trigger]
            n.is_free(x) == (m.is_free(x) || n.is_slot(m.slabs.len() as int, x)),
        forall|x: int| #[trigger]
            n.is_object(x) == (m.is_object(x) || n.is_slot(m.slabs.len() as int, x)),
        forall|x: int| #[trigger] n.is_slot(m.slabs.len() as int, x) ==> !m.is_object(x),
{
    let new = list::new_slab(page_start, m.pages, m.size);
    let count = m.slabs.len() as int;
    let mine = m.cpus.len() + count;
    let objects = list::per_page(m.size) * m.pages;
    assert(n.list(mine) == new.free);
    assert forall|s: int, o: int| 0 <= s < count implies #[trigger] n.is_slot(s, o) == m.is_slot(
        s,
        o,
    ) by {
        assert(n.slabs[s] == m.slabs[s]);
    }
    assert forall|c: int| 0 <= c < n.cpus.len() implies (#[trigger] n.state(c)).ok() by {
        assert(m.state(c).ok());
        assert(list::links_known(n.slabs)) by {
            assert forall|s: int| 0 <= s < n.slabs.len() implies list::known(
                n.slabs,
                (#[trigger] n.slabs[s]).prev,
            ) && list::known(n.slabs, n.slabs[s].next) by {
                if s < count {
                    assert(n.slabs[s] == m.slabs[s]);
                }
            }
        }
    }
    assert(list::links_known(n.slabs)) by {
        assert forall|s: int| 0 <= s < n.slabs.len() implies list::known(
            n.slabs,
            (#[trigger] n.slabs[s]).prev,
        ) && list::known(n.slabs, n.slabs[s].next) by {
            if s < count {
                assert(n.slabs[s] == m.slabs[s]);
            }
        }
    }
    assert(n.pages_ok()) by {
        assert forall|s: int| 0 <= s < n.slabs.len() implies list::fits(
            (#[trigger] n.slabs[s]).page_start,
            n.pages,
            n.size,
        ) && n.slabs[s].page_start % (PAGE_SIZE as int) == 0 by {
            if s < count {
                assert(n.slabs[s] == m.slabs[s]);
            }
        }
        assert forall|s: int, t: int| 0 <= s < t < n.slabs.len() implies pages_apart(
            (#[trigger] n.slabs[s]).page_start,
            n.pages,
            (#[trigger] n.slabs[t]).page_start,
            n.pages,
        ) by {
            assert(n.slabs[s] == m.slabs[s]);
            if t < count {
                assert(n.slabs[t] == m.slabs[t]);
            }
        }
    }
    // the objects of the new slab
    assert forall|i: int| 0 <= i < objects implies ({
        let k = (objects - 1 - i) as nat;
        let o = list::object_at(page_start, m.size, k);
        &&& #[trigger] new.free[i] == o
        &&& n.is_slot(count, o)
    }) by {
        let k = (objects - 1 - i) as nat;
        list::lemma_object_in_page(page_start, m.pages, m.size, k);
        assert(n.slabs[count] == new);
    }
    // an object of an older slab is not in the pages of the new one
    assert forall|s: int, o: int| 0 <= s < count && #[trigger] m.is_slot(s, o) implies !in_pages(
        page_start,
        m.pages,
        o,
    ) by {
        let k = choose|k: nat|
            k < objects && o == #[trigger] list::object_at(
                m.slabs[s].page_start,
                m.size,
                k,
            );
        assert(m.slabs[s].page_start > 0);
        list::lemma_object_in_page(m.slabs[s].page_start, m.pages, m.size, k);
    }
    assert forall|o: int| #[trigger] n.is_slot(count, o) implies in_pages(page_start, m.pages, o)
        && !m.is_object(o) by {
        let k = choose|k: nat|
            k < objects && o == #[trigger] list::object_at(
                n.slabs[count].page_start,
                n.size,
                k,
            );
        list::lemma_object_in_page(page_start, m.pages, m.size, k);
        if m.is_object(o) {
            let s = choose|s: int| 0 <= s < m.slabs.len() && #[trigger] m.is_slot(s, o);
        }
    }
    assert forall|l: int| 0 <= l < mine implies #[trigger] n.list(l) == m.list(l) && n.owner(l)
        == m.owner(l) by {}
    assert forall|l: int, i: int|
        0 <= l < n.lists() && 0 <= i < n.list(l).len() implies #[trigger] n.entry_ok(l, i) by {
        if l < mine {
            assert(n.list(l) == m.list(l));
            assert(m.entry_ok(l, i));
            assert(n.is_slot(m.owner(l)->0 as int, m.list(l)[i] as int));
        } else {
            assert(n.list(mine)[i] == new.free[i]);
        }
    }
    assert forall|l: int, i: int, k: int, j: int|
        0 <= l < n.lists() && 0 <= k < n.lists() && 0 <= i < n.list(l).len() && 0 <= j < n.list(
            k,
        ).len() && !(l == k && i == j) implies #[trigger] n.list(l)[i] != #[trigger] n.list(
        k,
    )[j] by {
        lemma_entry_place(m, n, l, i);
        lemma_entry_place(m, n, k, j);
        if l == mine && k == mine {
            let a = (objects - 1 - i) as nat;
            let b = (objects - 1 - j) as nat;
            assert(n.list(l)[i] == new.free[i]);
            assert(n.list(k)[j] == new.free[j]);
            if a < b {
                list::lemma_objects_apart(page_start, m.pages, m.size, a, b);
            } else {
                list::lemma_objects_apart(page_start, m.pages, m.size, b, a);
            }
        } else if l < mine && k < mine {
            assert(n.list(l) == m.list(l));
            assert(n.list(k) == m.list(k));
            assert(m.list(l)[i] != m.list(k)[j]);
        } else if l == mine {
            assert(n.list(l)[i] == new.free[i]);
        } else {
            assert(n.list(k)[j] == new.free[j]);
        }
    }
    assert forall|x: int| #[trigger] n.is_free(x) == (m.is_free(x) || n.is_slot(count, x)) by {
        if n.is_free(x) {
            let (l, i) = choose|l: int, i: int|
                0 <= l < n.lists() && 0 <= i < n.list(l).len() && #[trigger] n.list(l)[i] == x;
            if l < mine {
                assert(n.list(l) == m.list(l));
                assert(m.list(l)[i] == x);
            } else {
                assert(new.free[i] == x);
            }
        }
        if m.is_free(x) {
            let (l, i) = choose|l: int, i: int|
                0 <= l < m.lists() && 0 <= i < m.list(l).len() && #[trigger] m.list(l)[i] == x;
            assert(n.list(l) == m.list(l));
            assert(n.list(l)[i] == x);
        }
        if n.is_slot(count, x) {
            let k = choose|k: nat|
                k < objects && x == #[trigger] list::object_at(
                    n.slabs[count].page_start,
                    n.size,
                    k,
                );
            let i = objects - 1 - k;
            assert(new.free[i] == x);
            assert(n.list(mine)[i] == x);
        }
    }
    assert forall|x: int| #[trigger] n.is_object(x) == (m.is_object(x) || n.is_slot(count, x)) by {
        if n.is_object(x) {
            let s = choose|s: int| 0 <= s < n.slabs.len() && #[trigger] n.is_slot(s, x);
            if s < count {
                assert(m.is_slot(s, x));
            }
        }
        if m.is_object(x) {
            let s = choose|s: int| 0 <= s < m.slabs.len() && #[trigger] m.is_slot(s, x);
            assert(n.is_slot(s, x));
        }
    }
}

/// A free object of the older slabs is an object of them.
proof fn lemma_entry_place(m: CacheModel, n: CacheModel, l: int, i: int)
    requires
        m.free_ok(),
        n.cpus == m.cpus,
        n.slabs.len() == m.slabs.len() + 1,
        forall|k: int| 0 <= k < m.lists() ==> #[trigger] n.list(k) == m.list(k),
        0 <= l < n.lists(),
        0 <= i < n.list(l).len(),
    ensures
        l < m.lists() ==> m.is_object(n.list(l)[i] as int),
{
    if l < m.lists() {
        assert(n.list(l) == m.list(l));
        assert(m.entry_ok(l, i));
        assert(m.is_slot(m.owner(l)->0 as int, m.list(l)[i] as int));
    }
}

/// The lists of `n` that are not empty are lists of `m`, and the slabs have the same pages.
pub open spec fn rearranged(m: CacheModel, n: CacheModel) -> bool {
    &&& same_lists(m, n)
    &&& forall|l: int|
        0 <= l < n.lists() && (#[trigger] n.list(l)).len() > 0 ==> has_list(m, n.list(l))
}

/// `objects` is one of the lists of `m`.
pub open spec fn has_list(m: CacheModel, objects: Seq<usize>) -> bool {
    exists|l: int| 0 <= l < m.lists() && #[trigger] m.list(l) == objects
}

proof fn lemma_rearranged_twice(a: CacheModel, b: CacheModel, c: CacheModel)
    requires
        rearranged(a, b),
        rearranged(b, c),
    ensures
        rearranged(a, c),
{
    assert forall|l: int| 0 <= l < c.lists() && (#[trigger] c.list(l)).len() > 0 implies has_list(
        a,
        c.list(l),
    ) by {
        let k = choose|k: int| 0 <= k < b.lists() && #[trigger] b.list(k) == c.list(l);
        assert(has_list(a, b.list(k)));
    }
    assert forall|s: int| 0 <= s < a.slabs.len() implies (#[trigger] c.slabs[s]).page_start
        == a.slabs[s].page_start by {
        assert(b.slabs[s].page_start == a.slabs[s].page_start);
    }
}

/// The same objects are there, and the same are free.
pub open spec fn same_objects(m: CacheModel, n: CacheModel) -> bool {
    &&& forall|o: int| #[trigger] n.is_free(o) == m.is_free(o)
    &&& forall|o: int| #[trigger] n.is_object(o) == m.is_object(o)
}

/// The parts of [`CacheModel::ok`] that do not speak of free objects.
proof fn lemma_rest_ok(m: CacheModel, n: CacheModel, c: int)
    requires
        m.ok(),
        same_lists(m, n),
        0 <= c < m.cpus.len(),
        forall|d: int| 0 <= d < m.cpus.len() && d != c ==> #[trigger] n.cpus[d] == m.cpus[d],
        n.state(c).ok(),
        list::links_known(n.slabs),
        n.free_ok(),
    ensures
        n.ok(),
{
    assert forall|d: int| 0 <= d < n.cpus.len() implies (#[trigger] n.state(d)).ok() by {
        if d != c {
            assert(m.state(d).ok());
            assert(n.cpus[d] == m.cpus[d]);
        }
    }
    assert forall|s: int| 0 <= s < n.slabs.len() implies list::fits(
        (#[trigger] n.slabs[s]).page_start,
        n.pages,
        n.size,
    ) && n.slabs[s].page_start % (PAGE_SIZE as int) == 0 by {
        assert(n.slabs[s].page_start == m.slabs[s].page_start);
    }
    assert forall|s: int, t: int| 0 <= s < t < n.slabs.len() implies pages_apart(
        (#[trigger] n.slabs[s]).page_start,
        n.pages,
        (#[trigger] n.slabs[t]).page_start,
        n.pages,
    ) by {
        assert(n.slabs[s].page_start == m.slabs[s].page_start);
        assert(n.slabs[t].page_start == m.slabs[t].page_start);
        assert(pages_apart(m.slabs[s].page_start, m.pages, m.slabs[t].page_start, m.pages));
    }
}

/// Making a slab the active one of a cpu without free objects keeps the same objects free.
pub proof fn lemma_replaced_ok(m: CacheModel, c: int, slab: usize)
    requires
        m.ok(),
        0 <= c < m.cpus.len(),
        m.cpus[c].free.len() == 0,
        slab < m.slabs.len(),
    ensures
        m.with_state(c, m.state(c).replaced(slab)).ok(),
        same_objects(m, m.with_state(c, m.state(c).replaced(slab))),
        rearranged(m, m.with_state(c, m.state(c).replaced(slab))),
{
    let st = m.state(c);
    let n = m.with_state(c, st.replaced(slab));
    assert(st.ok());
    st.lemma_replaced(slab);
    let from = m.cpus.len() + slab;
    assert forall|l: int| 0 <= l < m.lists() && l != from && l != c implies #[trigger] n.list(l)
        == m.list(l) && n.owner(l) == m.owner(l) by {
        if l >= m.cpus.len() {
            let s = l - m.cpus.len();
            assert(st.replaced(slab).slabs[s].free == st.slabs[s].free);
        }
    }
    lemma_moved(m, n, from as int, c);
    assert(m.list(from as int) == n.list(c));
    assert(n.state(c) == st.replaced(slab));
    lemma_rest_ok(m, n, c);
}

/// Loading what has been given back to the active slab keeps the same objects free.
pub proof fn lemma_reloaded_ok(m: CacheModel, c: int)
    requires
        m.ok(),
        0 <= c < m.cpus.len(),
        m.cpus[c].free.len() == 0,
        m.cpus[c].slab is Some,
    ensures
        m.with_state(c, m.state(c).loaded(m.cpus[c].slab->0, false)).ok(),
        same_objects(m, m.with_state(c, m.state(c).loaded(m.cpus[c].slab->0, false))),
        rearranged(m, m.with_state(c, m.state(c).loaded(m.cpus[c].slab->0, false))),
{
    let slab = m.cpus[c].slab->0;
    let st = m.state(c);
    assert(st.ok());
    let n = m.with_state(c, st.loaded(slab, false));
    let from = m.cpus.len() + slab;
    assert forall|l: int| 0 <= l < m.lists() && l != from && l != c implies #[trigger] n.list(l)
        == m.list(l) && n.owner(l) == m.owner(l) by {}
    lemma_moved(m, n, from as int, c);
    assert(m.list(from as int) == n.list(c));
    assert(list::links_known(n.slabs)) by {
        assert forall|s: int| 0 <= s < n.slabs.len() implies list::known(
            n.slabs,
            (#[trigger] n.slabs[s]).prev,
        ) && list::known(n.slabs, n.slabs[s].next) by {
            assert(list::known(m.slabs, m.slabs[s].prev));
        }
    }
    lemma_rest_ok(m, n, c);
}

/// Changing the links of slabs and the list of a cpu keeps the same objects free.
pub proof fn lemma_relinked_ok(m: CacheModel, c: int, st: cpu::CpuState)
    requires
        m.ok(),
        0 <= c < m.cpus.len(),
        cpu::relinked(m.slabs, st.slabs),
        list::links_known(st.slabs),
        st.ok(),
        st.cpu.free == m.cpus[c].free,
        st.cpu.slab == m.cpus[c].slab,
    ensures
        m.with_state(c, st).ok(),
        same_objects(m, m.with_state(c, st)),
        rearranged(m, m.with_state(c, st)),
{
    let n = m.with_state(c, st);
    assert forall|l: int| 0 <= l < m.lists() implies #[trigger] n.list(l) == m.list(l) && n.owner(
        l,
    ) == m.owner(l) by {
        if l >= m.cpus.len() {
            let s = l - m.cpus.len();
            assert(st.slabs[s].free == m.slabs[s].free);
        }
    }
    lemma_kept(m, n);
    assert(n.state(c) == st);
    lemma_rest_ok(m, n, c);
}

/// Drawing on the list of a cpu keeps the same objects free.
pub proof fn lemma_advanced_ok(m: CacheModel, c: int)
    requires
        m.ok(),
        0 <= c < m.cpus.len(),
        m.cpus[c].free.len() == 0,
        m.cpus[c].head is Some,
    ensures
        m.with_state(c, m.state(c).advanced()).ok(),
        same_objects(m, m.with_state(c, m.state(c).advanced())),
        rearranged(m, m.with_state(c, m.state(c).advanced())),
{
    let st = m.state(c);
    assert(st.ok());
    let h = st.cpu.head->0;
    let u = st.unlisted();
    cpu::lemma_popped(st.slabs, h);
    lemma_relinked_ok(m, c, u);
    let k = m.with_state(c, u);
    assert(k.state(c) == u);
    lemma_replaced_ok(k, c, h);
    assert(k.with_state(c, u.replaced(h)).cpus =~= m.with_state(c, st.advanced()).cpus);
    lemma_rearranged_twice(m, k, m.with_state(c, st.advanced()));
}

/// Drawing on the list of a cpu until it has a free object keeps the same objects free.
pub proof fn lemma_drained_ok(m: CacheModel, c: int)
    requires
        m.ok(),
        0 <= c < m.cpus.len(),
    ensures
        m.with_state(c, m.state(c).drained()).ok(),
        same_objects(m, m.with_state(c, m.state(c).drained())),
    decreases m.state(c).rank(),
{
    let st = m.state(c);
    assert(st.ok());
    if st.ready() || st.cpu.head is None {
        assert(m.with_state(c, st).cpus =~= m.cpus);
    } else {
        lemma_advanced_ok(m, c);
        st.lemma_advanced();
        let k = m.with_state(c, st.advanced());
        assert(k.state(c) == st.advanced());
        lemma_drained_ok(k, c);
        assert(k.with_state(c, k.state(c).drained()).cpus =~= m.with_state(c, st.drained()).cpus);
    }
}

/// Taking a free object of a cpu keeps the others.
pub proof fn lemma_popped_ok(m: CacheModel, c: int)
    requires
        m.ok(),
        0 <= c < m.cpus.len(),
        m.state(c).ready(),
    ensures
        m.with_state(c, m.state(c).popped()).ok(),
        ({
            let n = m.with_state(c, m.state(c).popped());
            let o = m.cpus[c].free.last() as int;
            &&& m.is_free(o)
            &&& m.is_object(o)
            &&& forall|x: int| #[trigger] n.is_free(x) == (m.is_free(x) && x != o)
            &&& forall|x: int| #[trigger] n.is_object(x) == m.is_object(x)
        }),
{
    let st = m.state(c);
    let n = m.with_state(c, st.popped());
    assert(st.ok());
    assert forall|l: int| 0 <= l < m.lists() && l != c implies #[trigger] n.list(l) == m.list(l)
        && n.owner(l) == m.owner(l) by {}
    lemma_removed(m, n, c);
    assert(n.state(c) == st.popped());
    lemma_rest_ok(m, n, c);
}

/// An object belongs to one slab, which has it in one of its pages.
pub proof fn lemma_slab_of(m: CacheModel, s: int, o: int)
    requires
        m.ok(),
        0 <= s < m.slabs.len(),
        m.is_slot(s, o),
    ensures
        m.slab_of(o) == s,
        in_pages(m.slabs[s].page_start, m.pages, o - o % (PAGE_SIZE as int)),
        0 < o - o % (PAGE_SIZE as int),
        o + m.size <= usize::MAX,
{
    lemma_slot_pages(m, s, o);
    let t = m.slab_of(o);
    assert(0 <= t < m.slabs.len() && m.is_slot(t, o));
    lemma_slot_pages(m, t, o);
    assert(m.slabs[s].page_start > 0);
}

pub proof fn lemma_slot_pages(m: CacheModel, s: int, o: int)
    requires
        m.ok(),
        0 <= s < m.slabs.len(),
        m.is_slot(s, o),
    ensures
        in_pages(m.slabs[s].page_start, m.pages, o),
        in_pages(m.slabs[s].page_start, m.pages, o - o % (PAGE_SIZE as int)),
        o + m.size <= m.slabs[s].page_start + PAGE_SIZE * m.pages,
{
    let start = m.slabs[s].page_start;
    let pp = list::per_page(m.size);
    let k = choose|k: nat|
        k < pp * m.pages && o == #[trigger] list::object_at(start, m.size, k);
    list::lemma_object_in_page(start, m.pages, m.size, k);
    assert((start + PAGE_SIZE * (k / pp) + (k % pp) * m.size) % (PAGE_SIZE as int) == (k % pp)
        * m.size) by {
        let a = start / (PAGE_SIZE as int) + k / pp;
        let r = (k % pp) * m.size;
        vstd::arithmetic::div_mod::lemma_fundamental_div_mod(start, PAGE_SIZE as int);
        assert(start + PAGE_SIZE * (k / pp) == PAGE_SIZE * a) by (nonlinear_arith)
            requires
                start == PAGE_SIZE * (start / (PAGE_SIZE as int)),
                a == start / (PAGE_SIZE as int) + k / pp,
        ;
        vstd::arithmetic::div_mod::lemma_fundamental_div_mod_converse(
            PAGE_SIZE * a + r,
            PAGE_SIZE as int,
            a,
            r as int,
        );
    }
}

/// The list to which an object of `slab` is given back on cpu `c`.
pub open spec fn returned_to(m: CacheModel, c: int, slab: usize) -> int {
    if m.cpus[c].slab == Some(slab) {
        c
    } else {
        m.cpus.len() + slab
    }
}

/// Giving back an object that has been handed out makes it free, and keeps the others as they are.
pub proof fn lemma_returned_ok(m: CacheModel, c: int, slab: usize, o: usize)
    requires
        m.ok(),
        0 <= c < m.cpus.len(),
        slab < m.slabs.len(),
        m.is_slot(slab as int, o as int),
        !m.is_free(o as int),
    ensures
        m.with_state(c, m.state(c).returned(slab, o)).ok(),
        ({
            let n = m.with_state(c, m.state(c).returned(slab, o));
            &&& forall|x: int| #[trigger] n.is_free(x) == (m.is_free(x) || x == o)
            &&& forall|x: int| #[trigger] n.is_object(x) == m.is_object(x)
            &&& same_lists(m, n)
            &&& forall|l: int|
                0 <= l < m.lists() ==> #[trigger] n.list(l) == (if l == returned_to(m, c, slab) {
                    m.list(l).push(o)
                } else {
                    m.list(l)
                })
        }),
{
    let st = m.state(c);
    assert(st.ok());
    let n = m.with_state(c, st.returned(slab, o));
    if st.cpu.slab == Some(slab) {
        assert forall|l: int| 0 <= l < m.lists() && l != c implies #[trigger] n.list(l) == m.list(l)
            && n.owner(l) == m.owner(l) by {}
        lemma_added(m, n, c, o);
        assert(n.state(c) == st.returned(slab, o));
        lemma_rest_ok(m, n, c);
    } else {
        let t = cpu::CpuState {
            slabs: st.slabs.update(slab as int, st.slabs[slab as int].pushed(o)),
            ..st
        };
        let k = m.with_state(c, t);
        let to = m.cpus.len() + slab;
        assert forall|l: int| 0 <= l < m.lists() && l != to implies #[trigger] k.list(l) == m.list(
            l,
        ) && k.owner(l) == m.owner(l) by {}
        lemma_added(m, k, to as int, o);
        assert(list::links_known(t.slabs)) by {
            assert forall|s: int| 0 <= s < t.slabs.len() implies list::known(
                t.slabs,
                (#[trigger] t.slabs[s]).prev,
            ) && list::known(t.slabs, t.slabs[s].next) by {
                assert(list::known(m.slabs, m.slabs[s].prev));
            }
        }
        assert(k.state(c) == t);
        lemma_rest_ok(m, k, c);
        if !m.slabs[slab as int].frozen && m.slabs[slab as int].is_full() {
            cpu::lemma_pushed(t.slabs, t.cpu.head, slab);
            lemma_relinked_ok(k, c, t.listed(slab));
            assert(k.with_state(c, t.listed(slab)).cpus =~= n.cpus);
            assert forall|l: int| 0 <= l < m.lists() implies #[trigger] n.list(l) == k.list(l) by {
                if l >= m.cpus.len() {
                    assert(n.slabs[l - m.cpus.len()].free == t.slabs[l - m.cpus.len()].free);
                }
            }
        }
    }
}

/// Making a slab that is nowhere the active one keeps each slab in one place.
proof fn lemma_replaced_places(m: CacheModel, c: int, slab: usize)
    requires
        m.ok(),
        m.placed_once(),
        0 <= c < m.cpus.len(),
        m.cpus[c].head is None,
        slab < m.slabs.len(),
        forall|d: int|
            0 <= d < m.cpus.len() ==> (#[trigger] m.cpus[d]).slab != Some(slab) && m.cpus[d].head
                != Some(slab),
    ensures
        m.with_state(c, m.state(c).replaced(slab)).placed_once(),
{
    let st = m.state(c);
    assert(st.ok());
    let n = m.with_state(c, st.replaced(slab));
    let s = st.loaded(slab, true);
    let t = cpu::CpuState {
        cpu: cpu::CpuModel { slab: Some(slab), ..s.cpu },
        ..s
    };
    assert forall|i: int| 0 <= i < m.slabs.len() implies ({
        let a = #[trigger] n.slabs[i];
        let b = m.slabs[i];
        &&& a.objects == b.objects
        &&& a.inuse == (if i == slab {
            b.objects
        } else {
            b.inuse
        })
        &&& a.frozen == (if i == slab {
            true
        } else if st.cpu.slab == Some(i as usize) && b.is_full() {
            false
        } else {
            b.frozen
        })
    }) by {
        match st.cpu.slab {
            None => {},
            Some(old) => {
                let u = cpu::CpuState {
                    slabs: t.slabs.update(
                        old as int,
                        list::thawed(t.slabs[old as int]),
                    ),
                    ..t
                };
                assert(list::links_known(u.slabs)) by {
                    assert forall|j: int| 0 <= j < u.slabs.len() implies list::known(
                        u.slabs,
                        (#[trigger] u.slabs[j]).prev,
                    ) && list::known(u.slabs, u.slabs[j].next) by {
                        assert(list::known(m.slabs, m.slabs[j].prev));
                    }
                }
                cpu::lemma_pushed(u.slabs, u.cpu.head, old);
                assert(u.listed(old).slabs[i].objects == u.slabs[i].objects);
                assert(m.cpus[c].slab != Some(slab));
            },
        }
    }
    st.lemma_replaced(slab);
    assert forall|d: int| 0 <= d < n.cpus.len() implies ({
        let cpu = #[trigger] n.cpus[d];
        &&& cpu.slab is Some ==> n.slabs[cpu.slab->0 as int].frozen && cpu.slab != cpu.head
        &&& cpu.head is Some ==> !n.slabs[cpu.head->0 as int].is_full()
    }) by {
        assert(m.state(d).ok());
        assert(m.cpus[d].slab != Some(slab));
        if d != c {
            assert(n.cpus[d] == m.cpus[d]);
            assert(m.cpus[d].slab is Some ==> m.cpus[d].slab != m.cpus[c].slab);
            if m.cpus[d].slab is Some {
                assert(n.slabs[m.cpus[d].slab->0 as int].frozen);
            }
        }
    }
    assert forall|d: int, e: int|
        0 <= d < n.cpus.len() && 0 <= e < n.cpus.len() && d != e implies ({
        let cpu = #[trigger] n.cpus[d];
        let other = #[trigger] n.cpus[e];
        &&& cpu.slab is Some ==> cpu.slab != other.slab && cpu.slab != other.head
        &&& cpu.head is Some ==> cpu.head != other.head
    }) by {
        assert(m.cpus[d].slab != Some(slab));
        assert(m.cpus[e].slab != Some(slab));
        let cpu = m.cpus[d];
        let other = m.cpus[e];
        assert(cpu.slab is Some ==> cpu.slab != other.slab && cpu.slab != other.head);
        assert(other.slab is Some ==> other.slab != cpu.slab && other.slab != cpu.head);
    }
    assert forall|i: int| 0 <= i < n.slabs.len() implies (#[trigger] n.slabs[i]).inuse
        <= n.slabs[i].objects by {
        assert(m.slabs[i].inuse <= m.slabs[i].objects);
    }
}

/// Drawing on the list of a cpu keeps each slab in one place.
proof fn lemma_advanced_places(m: CacheModel, c: int)
    requires
        m.ok(),
        m.placed_once(),
        0 <= c < m.cpus.len(),
        m.cpus[c].head is Some,
    ensures
        m.with_state(c, m.state(c).advanced()).placed_once(),
{
    let st = m.state(c);
    assert(st.ok());
    let h = st.cpu.head->0;
    let u = st.unlisted();
    let k = m.with_state(c, u);
    cpu::lemma_popped(st.slabs, h);
    lemma_relinked_ok(m, c, u);
    lemma_relinked_places(m, c, u);
    assert(k.state(c) == u);
    assert forall|d: int| 0 <= d < k.cpus.len() implies (#[trigger] k.cpus[d]).slab != Some(h)
        && k.cpus[d].head != Some(h) by {
        let cpu = m.cpus[c];
        if d != c {
            let other = m.cpus[d];
            assert(k.cpus[d] == other);
            assert(other.slab is Some ==> other.slab != cpu.head);
            assert(cpu.head != other.head);
        }
    }
    lemma_replaced_places(k, c, h);
    assert(k.with_state(c, u.replaced(h)).cpus =~= m.with_state(c, st.advanced()).cpus);
}

/// Changing links, and taking the first slab of a list out, keeps each slab in one place.
proof fn lemma_relinked_places(m: CacheModel, c: int, st: cpu::CpuState)
    requires
        m.ok(),
        m.placed_once(),
        0 <= c < m.cpus.len(),
        cpu::relinked(m.slabs, st.slabs),
        st.cpu.slab == m.cpus[c].slab,
        st.cpu.head is None,
    ensures
        m.with_state(c, st).placed_once(),
{
    let n = m.with_state(c, st);
    assert forall|i: int| 0 <= i < n.slabs.len() implies (#[trigger] n.slabs[i]).inuse
        <= n.slabs[i].objects by {
        assert(m.slabs[i].inuse <= m.slabs[i].objects);
    }
    assert forall|d: int| 0 <= d < n.cpus.len() implies ({
        let cpu = #[trigger] n.cpus[d];
        &&& cpu.slab is Some ==> n.slabs[cpu.slab->0 as int].frozen && cpu.slab != cpu.head
        &&& cpu.head is Some ==> !n.slabs[cpu.head->0 as int].is_full()
    }) by {
        assert(m.state(d).ok());
        let cpu = m.cpus[d];
        assert(cpu.slab is Some ==> m.slabs[cpu.slab->0 as int].frozen);
        if cpu.slab is Some {
            assert(n.slabs[cpu.slab->0 as int].frozen);
        }
        if n.cpus[d].head is Some {
            assert(n.slabs[cpu.head->0 as int].objects == m.slabs[cpu.head->0 as int].objects);
        }
    }
    assert forall|d: int, e: int|
        0 <= d < n.cpus.len() && 0 <= e < n.cpus.len() && d != e implies ({
        let cpu = #[trigger] n.cpus[d];
        let other = #[trigger] n.cpus[e];
        &&& cpu.slab is Some ==> cpu.slab != other.slab && cpu.slab != other.head
        &&& cpu.head is Some ==> cpu.head != other.head
    }) by {
        let cpu = m.cpus[d];
        let other = m.cpus[e];
        assert(cpu.slab is Some ==> cpu.slab != other.slab && cpu.slab != other.head);
    }
}

proof fn lemma_drained_places(m: CacheModel, c: int)
    requires
        m.ok(),
        m.placed_once(),
        0 <= c < m.cpus.len(),
    ensures
        m.with_state(c, m.state(c).drained()).placed_once(),
    decreases m.state(c).rank(),
{
    let st = m.state(c);
    assert(st.ok());
    if st.ready() || st.cpu.head is None {
        assert(m.with_state(c, st).cpus =~= m.cpus);
    } else {
        lemma_advanced_places(m, c);
        lemma_advanced_ok(m, c);
        st.lemma_advanced();
        let k = m.with_state(c, st.advanced());
        assert(k.state(c) == st.advanced());
        lemma_drained_places(k, c);
        assert(k.with_state(c, k.state(c).drained()).cpus =~= m.with_state(c, st.drained()).cpus);
    }
}

/// The pages from `page_start` on can become those of a new slab.
pub open spec fn can_add(m: CacheModel, page_start: int) -> bool {
    &&& m.slabs.len() < usize::MAX
    &&& list::fits(page_start, m.pages, m.size)
    &&& page_start % (PAGE_SIZE as int) == 0
    &&& forall|s: int|
        0 <= s < m.slabs.len() ==> pages_apart(
            (#[trigger] m.slabs[s]).page_start,
            m.pages,
            page_start,
            m.pages,
        )
}

/// The state after one object has been allocated on cpu `c`, with the pages from `page_start` on
/// where new ones are needed.
pub open spec fn after_one(m: CacheModel, c: int, page_start: int) -> CacheModel {
    m.with_state(c, m.state(c).served(page_start, m.pages, m.size).popped())
}

/// The object that is allocated next on cpu `c`.
pub open spec fn next_object(m: CacheModel, c: int, page_start: int) -> usize {
    m.state(c).served(page_start, m.pages, m.size).cpu.free.last()
}

/// The indices stay those of slabs where a new slab is added.
pub proof fn lemma_more_known(st: cpu::CpuState, new: list::SlabModel)
    requires
        st.ok(),
        new.prev is None,
        new.next is None,
    ensures
        (cpu::CpuState { slabs: st.slabs.push(new), ..st }).ok(),
{
    let more = st.slabs.push(new);
    assert forall|s: int| 0 <= s < more.len() implies list::known(more, (#[trigger] more[s]).prev)
        && list::known(more, more[s].next) by {
        if s < st.slabs.len() {
            assert(more[s] == st.slabs[s]);
            assert(list::known(st.slabs, st.slabs[s].prev));
        }
    }
}

/// Allocating an object keeps each slab in one place.
pub proof fn law_allocate_keeps_places(m: CacheModel, c: int, page_start: int)
    requires
        m.ok(),
        m.placed_once(),
        0 <= c < m.cpus.len(),
        m.state(c).needs_pages() ==> can_add(m, page_start),
    ensures
        after_one(m, c, page_start).placed_once(),
{
    let st = m.state(c);
    assert(st.ok());
    let served = st.served(page_start, m.pages, m.size);
    let n = m.with_state(c, served);
    if st.ready() {
        assert(n.cpus =~= m.cpus);
    } else if st.can_reload() {
        lemma_reloaded_ok(m, c);
        lemma_only_free_differs(m, n);
    } else {
        lemma_drained_places(m, c);
        lemma_drained_ok(m, c);
        let d = st.drained();
        let k = m.with_state(c, d);
        lemma_drained_page_starts(st);
        if !d.ready() {
            let new = list::new_slab(page_start, m.pages, m.size);
            let g = CacheModel { slabs: k.slabs.push(new), ..k };
            assert forall|s: int| 0 <= s < k.slabs.len() implies pages_apart(
                (#[trigger] k.slabs[s]).page_start,
                k.pages,
                page_start,
                k.pages,
            ) by {
                assert(k.slabs[s].page_start == m.slabs[s].page_start);
            }
            lemma_grown(k, g, page_start);
            let slab = k.slabs.len() as usize;
            lemma_grown_places(k, g, new);
            assert forall|e: int| 0 <= e < g.cpus.len() implies (#[trigger] g.cpus[e]).slab != Some(
                slab,
            ) && g.cpus[e].head != Some(slab) by {
                assert(k.state(e).ok());
            }
            lemma_replaced_places(g, c, slab);
            lemma_replaced_ok(g, c, slab);
            assert(g.state(c) == (cpu::CpuState { slabs: k.slabs.push(new), ..d }));
            assert(g.with_state(c, g.state(c).replaced(slab)).cpus =~= n.cpus);
        }
    }
    let last = m.with_state(c, served.popped());
    assert(last.slabs == n.slabs);
    lemma_only_free_differs(n, last);
}

/// Drawing on the list of a cpu ends with no list where no object has been found.
pub proof fn lemma_drained_page_starts(st: cpu::CpuState)
    requires
        st.ok(),
    ensures
        st.drained().slabs.len() == st.slabs.len(),
        !st.drained().ready() ==> st.drained().cpu.head is None,
        forall|i: int|
            0 <= i < st.slabs.len() ==> (#[trigger] st.drained().slabs[i]).page_start
                == st.slabs[i].page_start,
    decreases st.rank(),
{
    if !st.ready() && st.cpu.head is Some {
        st.lemma_advanced();
        lemma_drained_page_starts(st.advanced());
        assert forall|i: int| 0 <= i < st.slabs.len() implies (
        #[trigger] st.drained().slabs[i]).page_start
            == st.slabs[i].page_start by {
            assert(st.advanced().slabs[i].page_start == st.slabs[i].page_start);
        }
    }
}

/// A new slab is in no place.
proof fn lemma_grown_places(m: CacheModel, n: CacheModel, new: list::SlabModel)
    requires
        m.ok(),
        m.placed_once(),
        new.inuse <= new.objects,
        n == (CacheModel { slabs: m.slabs.push(new), ..m }),
    ensures
        n.placed_once(),
{
    assert forall|d: int| 0 <= d < n.cpus.len() implies ({
        let cpu = #[trigger] n.cpus[d];
        &&& cpu.slab is Some ==> n.slabs[cpu.slab->0 as int].frozen && cpu.slab != cpu.head
        &&& cpu.head is Some ==> !n.slabs[cpu.head->0 as int].is_full()
    }) by {
        assert(m.state(d).ok());
        assert(n.cpus[d] == m.cpus[d]);
    }
    assert forall|i: int| 0 <= i < n.slabs.len() implies (#[trigger] n.slabs[i]).inuse
        <= n.slabs[i].objects by {
        if i < m.slabs.len() {
            assert(n.slabs[i] == m.slabs[i]);
        }
    }
}

/// The places are the same where only free objects differ.
proof fn lemma_only_free_differs(m: CacheModel, n: CacheModel)
    requires
        m.ok(),
        m.placed_once(),
        n.cpus.len() == m.cpus.len(),
        n.slabs.len() == m.slabs.len(),
        forall|c: int|
            0 <= c < m.cpus.len() ==> (#[trigger] n.cpus[c]).slab == m.cpus[c].slab
                && n.cpus[c].head == m.cpus[c].head,
        forall|s: int|
            0 <= s < m.slabs.len() ==> (#[trigger] n.slabs[s]).frozen == m.slabs[s].frozen
                && n.slabs[s].inuse == m.slabs[s].inuse && n.slabs[s].objects
                == m.slabs[s].objects,
    ensures
        n.placed_once(),
{
    assert forall|d: int| 0 <= d < n.cpus.len() implies ({
        let cpu = #[trigger] n.cpus[d];
        &&& cpu.slab is Some ==> n.slabs[cpu.slab->0 as int].frozen && cpu.slab != cpu.head
        &&& cpu.head is Some ==> !n.slabs[cpu.head->0 as int].is_full()
    }) by {
        let cpu = m.cpus[d];
        assert(m.state(d).ok());
        if cpu.slab is Some {
            assert(n.slabs[cpu.slab->0 as int].frozen == m.slabs[cpu.slab->0 as int].frozen);
        }
        if cpu.head is Some {
            assert(n.slabs[cpu.head->0 as int].inuse == m.slabs[cpu.head->0 as int].inuse);
        }
    }
    assert forall|d: int, e: int|
        0 <= d < n.cpus.len() && 0 <= e < n.cpus.len() && d != e implies ({
        let cpu = #[trigger] n.cpus[d];
        let other = #[trigger] n.cpus[e];
        &&& cpu.slab is Some ==> cpu.slab != other.slab && cpu.slab != other.head
        &&& cpu.head is Some ==> cpu.head != other.head
    }) by {
        let cpu = m.cpus[d];
        let other = m.cpus[e];
        assert(cpu.slab is Some ==> cpu.slab != other.slab && cpu.slab != other.head);
    }
    assert forall|i: int| 0 <= i < n.slabs.len() implies (#[trigger] n.slabs[i]).inuse
        <= n.slabs[i].objects by {
        assert(m.slabs[i].inuse <= m.slabs[i].objects);
    }
}

/// Giving an object back keeps each slab in one place, unless its slab counts no object as in use.
pub proof fn law_deallocate_keeps_places(m: CacheModel, c: int, slab: usize, o: usize)
    requires
        m.ok(),
        m.placed_once(),
        0 <= c < m.cpus.len(),
        slab < m.slabs.len(),
        m.keeps_places(c, slab as int),
    ensures
        m.with_state(c, m.state(c).returned(slab, o)).placed_once(),
{
    let st = m.state(c);
    assert(st.ok());
    let n = m.with_state(c, st.returned(slab, o));
    if st.cpu.slab == Some(slab) {
        lemma_only_free_differs(m, n);
    } else {
        let s = m.slabs[slab as int];
        let t = cpu::CpuState {
            slabs: st.slabs.update(slab as int, s.pushed(o)),
            ..st
        };
        let listed = !s.frozen && s.is_full();
        assert(list::links_known(t.slabs)) by {
            assert forall|j: int| 0 <= j < t.slabs.len() implies list::known(
                t.slabs,
                (#[trigger] t.slabs[j]).prev,
            ) && list::known(t.slabs, t.slabs[j].next) by {
                assert(list::known(m.slabs, m.slabs[j].prev));
            }
        }
        if listed {
            cpu::lemma_pushed(t.slabs, t.cpu.head, slab);
        }
        assert forall|i: int| 0 <= i < m.slabs.len() implies ({
            let a = #[trigger] n.slabs[i];
            let b = m.slabs[i];
            &&& a.objects == b.objects
            &&& a.frozen == b.frozen
            &&& a.inuse == (if i == slab {
                b.inuse - 1
            } else {
                b.inuse as int
            })
        }) by {
            if listed {
                assert(n.slabs[i].objects == t.slabs[i].objects);
            }
        }
        assert forall|i: int| 0 <= i < n.slabs.len() implies (#[trigger] n.slabs[i]).inuse
            <= n.slabs[i].objects by {
            assert(m.slabs[i].inuse <= m.slabs[i].objects);
        }
        // where the slab is listed, it was in no place
        assert forall|d: int| 0 <= d < m.cpus.len() && listed implies (
        #[trigger] m.cpus[d]).slab != Some(slab) && m.cpus[d].head != Some(slab) by {
            assert(m.state(d).ok());
        }
        assert forall|d: int| 0 <= d < n.cpus.len() implies ({
            let cpu = #[trigger] n.cpus[d];
            &&& cpu.slab is Some ==> n.slabs[cpu.slab->0 as int].frozen && cpu.slab != cpu.head
            &&& cpu.head is Some ==> !n.slabs[cpu.head->0 as int].is_full()
        }) by {
            assert(m.state(d).ok());
            let cpu = m.cpus[d];
            if cpu.slab is Some {
                assert(n.slabs[cpu.slab->0 as int].frozen == m.slabs[cpu.slab->0 as int].frozen);
            }
            if n.cpus[d].head is Some {
                let h = n.cpus[d].head->0;
                assert(n.slabs[h as int].objects == m.slabs[h as int].objects);
                assert(m.slabs[h as int].inuse <= m.slabs[h as int].objects);
            }
        }
        assert forall|d: int, e: int|
            0 <= d < n.cpus.len() && 0 <= e < n.cpus.len() && d != e implies ({
            let cpu = #[trigger] n.cpus[d];
            let other = #[trigger] n.cpus[e];
            &&& cpu.slab is Some ==> cpu.slab != other.slab && cpu.slab != other.head
            &&& cpu.head is Some ==> cpu.head != other.head
        }) by {
            let cpu = m.cpus[d];
            let other = m.cpus[e];
            assert(cpu.slab is Some ==> cpu.slab != other.slab && cpu.slab != other.head);
            assert(cpu.head is Some ==> cpu.head != other.head);
            if listed {
                assert(cpu.slab != Some(slab) && cpu.head != Some(slab));
                assert(other.slab != Some(slab) && other.head != Some(slab));
            }
        }
    }
}

/// Two objects have no byte in common.
pub proof fn law_objects_are_disjoint(m: CacheModel, a: int, b: int)
    requires
        m.ok(),
        m.is_object(a),
        m.is_object(b),
        a != b,
    ensures
        a + m.size <= b || b + m.size <= a,
{
    let s = m.slab_of(a);
    let t = m.slab_of(b);
    assert(0 <= s < m.slabs.len() && m.is_slot(s, a));
    assert(0 <= t < m.slabs.len() && m.is_slot(t, b));
    lemma_slot_pages(m, s, a);
    lemma_slot_pages(m, t, b);
    if s == t {
        let start = m.slabs[s].page_start;
        let count = list::per_page(m.size) * m.pages;
        let k = choose|k: nat|
            k < count && a == #[trigger] list::object_at(start, m.size, k);
        let j = choose|j: nat|
            j < count && b == #[trigger] list::object_at(start, m.size, j);
        if k < j {
            list::lemma_objects_apart(start, m.pages, m.size, k, j);
        } else {
            list::lemma_objects_apart(start, m.pages, m.size, j, k);
        }
    } else if s < t {
        assert(pages_apart(m.slabs[s].page_start, m.pages, m.slabs[t].page_start, m.pages));
    } else {
        assert(pages_apart(m.slabs[t].page_start, m.pages, m.slabs[s].page_start, m.pages));
    }
}

/// An object that is given back on the cpu whose active slab it belongs to is the next one that is
/// allocated there.
pub proof fn law_last_given_back_comes_first(
    m: CacheModel,
    c: int,
    slab: usize,
    o: usize,
    page_start: int,
)
    requires
        0 <= c < m.cpus.len(),
        m.cpus[c].slab == Some(slab),
    ensures
        ({
            let n = m.with_state(c, m.state(c).returned(slab, o));
            let served = n.state(c).served(page_start, m.pages, m.size);
            &&& !n.state(c).needs_pages()
            &&& served.cpu.free.last() == o
            &&& n.with_state(c, served.popped()) == m
        }),
{
    let n = m.with_state(c, m.state(c).returned(slab, o));
    let served = n.state(c).served(page_start, m.pages, m.size);
    assert(n.state(c).ready());
    assert(served.popped().cpu.free =~= m.cpus[c].free);
    assert(n.with_state(c, served.popped()).cpus =~= m.cpus);
}

/// What a cpu has free belongs to its active slab.
pub proof fn lemma_own_slab(m: CacheModel, c: int)
    requires
        m.ok(),
        0 <= c < m.cpus.len(),
        m.state(c).ready(),
    ensures
        m.cpus[c].slab == Some(m.slab_of(m.cpus[c].free.last() as int) as usize),
        m.slab_of(m.cpus[c].free.last() as int) < m.slabs.len(),
{
    let free = m.cpus[c].free;
    assert(m.list(c) == free);
    assert(m.entry_ok(c, free.len() - 1));
    lemma_slab_of(m, m.cpus[c].slab->0 as int, free.last() as int);
}

/// A cpu that has been served has a free object, and all stays in order.
proof fn lemma_served_ok(m: CacheModel, c: int, page_start: int)
    requires
        m.ok(),
        0 <= c < m.cpus.len(),
        m.state(c).needs_pages() ==> can_add(m, page_start),
    ensures
        m.state(c).served(page_start, m.pages, m.size).ready(),
        m.with_state(c, m.state(c).served(page_start, m.pages, m.size)).ok(),
{
    let st = m.state(c);
    assert(st.ok());
    if st.ready() {
        assert(m.with_state(c, st).cpus =~= m.cpus);
    } else if st.can_reload() {
        lemma_reloaded_ok(m, c);
    } else {
        lemma_drained_ok(m, c);
        lemma_drained_page_starts(st);
        let d = st.drained();
        let k = m.with_state(c, d);
        assert(k.state(c) == d);
        if !d.ready() {
            let new = list::new_slab(page_start, m.pages, m.size);
            let g = CacheModel { slabs: k.slabs.push(new), ..k };
            assert forall|s: int| 0 <= s < k.slabs.len() implies pages_apart(
                (#[trigger] k.slabs[s]).page_start,
                k.pages,
                page_start,
                k.pages,
            ) by {
                assert(k.slabs[s].page_start == m.slabs[s].page_start);
            }
            lemma_grown(k, g, page_start);
            let slab = k.slabs.len() as usize;
            lemma_replaced_ok(g, c, slab);
            assert(g.state(c).ok());
            g.state(c).lemma_replaced(slab);
            list::lemma_first_object(page_start, m.pages, m.size);
            let n = m.with_state(c, st.served(page_start, m.pages, m.size));
            assert(g.with_state(c, g.state(c).replaced(slab)).cpus =~= n.cpus);
        }
    }
}

/// An object that is given back at once on the cpu that it was allocated on is the next one that is
/// allocated there, and no pages are asked for.
pub proof fn law_given_back_at_once(m: CacheModel, c: int, page_start: int, later: int)
    requires
        m.ok(),
        0 <= c < m.cpus.len(),
        m.state(c).needs_pages() ==> can_add(m, page_start),
    ensures
        ({
            let o = next_object(m, c, page_start);
            let n = after_one(m, c, page_start);
            let slab = n.slab_of(o as int) as usize;
            let back = n.with_state(c, n.state(c).returned(slab, o));
            &&& !back.state(c).needs_pages()
            &&& next_object(back, c, later) == o
            &&& after_one(back, c, later) == n
        }),
{
    let served = m.state(c).served(page_start, m.pages, m.size);
    let k = m.with_state(c, served);
    let n = after_one(m, c, page_start);
    let o = next_object(m, c, page_start);
    lemma_served_ok(m, c, page_start);
    lemma_popped_ok(k, c);
    assert(k.state(c) == served);
    assert(k.with_state(c, served.popped()).cpus =~= n.cpus);
    lemma_own_slab(k, c);
    let slab = served.cpu.slab->0;
    assert(k.list(c) == served.cpu.free);
    assert(k.entry_ok(c, served.cpu.free.len() - 1));
    lemma_same_slots(k, n, slab as int, o as int);
    lemma_slab_of(n, slab as int, o as int);
    law_last_given_back_comes_first(n, c, slab, o, later);
}

/// The state after `k` objects have been allocated on cpu `c`.
pub open spec fn after_many(m: CacheModel, c: int, page_start: int, k: nat) -> CacheModel
    decreases k,
{
    if k == 0 {
        m
    } else {
        after_one(after_many(m, c, page_start, (k - 1) as nat), c, page_start)
    }
}

/// A cpu that keeps nothing hands out the objects of its first slab in the order of their addresses,
/// and asks for pages only for the first of them.
pub proof fn law_first_slab_in_order(m: CacheModel, c: int, page_start: int, k: nat)
    requires
        m.ok(),
        m.slabs.len() < usize::MAX,
        0 <= c < m.cpus.len(),
        m.cpus[c] == cpu::idle(),
        list::fits(page_start, m.pages, m.size),
        k < list::per_page(m.size) * m.pages,
    ensures
        ({
            let n = after_many(m, c, page_start, k);
            &&& n.state(c).needs_pages() == (k == 0)
            &&& next_object(n, c, page_start) == list::object_at(page_start, m.size, k)
            &&& n.slabs.len() == (if k == 0 {
                m.slabs.len()
            } else {
                m.slabs.len() + 1
            })
        }),
{
    let count = list::per_page(m.size) * m.pages;
    assert(m.state(c).ok());
    list::lemma_object_in_page(page_start, m.pages, m.size, k);
    lemma_after_many(m, c, page_start, k);
    let n = after_many(m, c, page_start, k);
    let new = list::new_slab(page_start, m.pages, m.size);
    if k == 0 {
        assert(n.state(c).served(page_start, m.pages, m.size).cpu.free == new.free);
    } else {
        assert(n.cpus[c].free.last() == new.free[count - 1 - k]);
    }
}

proof fn lemma_after_many(m: CacheModel, c: int, page_start: int, k: nat)
    requires
        m.ok(),
        m.slabs.len() < usize::MAX,
        0 <= c < m.cpus.len(),
        m.cpus[c] == cpu::idle(),
        list::fits(page_start, m.pages, m.size),
        k < list::per_page(m.size) * m.pages,
    ensures
        ({
            let n = after_many(m, c, page_start, k);
            let new = list::new_slab(page_start, m.pages, m.size);
            &&& n.size == m.size
            &&& n.pages == m.pages
            &&& n.cpus.len() == m.cpus.len()
            &&& if k == 0 {
                n == m
            } else {
                &&& n.slabs.len() == m.slabs.len() + 1
                &&& n.cpus[c].free == new.free.take(new.free.len() - k)
                &&& n.cpus[c].slab is Some
            }
        }),
    decreases k,
{
    assert(m.state(c).ok());
    if k > 0 {
        let h = (k - 1) as nat;
        lemma_after_many(m, c, page_start, h);
        let n = after_many(m, c, page_start, h);
        let new = list::new_slab(page_start, m.pages, m.size);
        let served = n.state(c).served(page_start, m.pages, m.size);
        if h == 0 {
            assert(served.cpu.free == new.free);
            assert(served.popped().cpu.free =~= new.free.take(new.free.len() - k));
        } else {
            assert(served == n.state(c));
            assert(served.popped().cpu.free =~= new.free.take(new.free.len() - k));
        }
    }
}

/// Pages for a new slab are needed to allocate an object on a cpu just where none is free in the cpu
/// itself, in its active slab or in the first slab of its list.
pub proof fn law_pages_are_needed(m: CacheModel, c: int)
    requires
        m.ok(),
        0 <= c < m.cpus.len(),
    ensures
        m.state(c).needs_pages() <==> {
            &&& m.cpus[c].free.len() == 0
            &&& m.cpus[c].slab matches Some(s) ==> m.slabs[s as int].free.len() == 0
            &&& m.cpus[c].head matches Some(h) ==> m.slabs[h as int].free.len() == 0
        },
{
    assert(m.state(c).ok());
    m.state(c).lemma_needs_pages();
}

/// Drawing on the list without success leaves the free objects where they are.
proof fn lemma_drained_free(st: cpu::CpuState)
    requires
        st.ok(),
        !st.ready(),
        !st.drained().ready(),
    ensures
        st.drained().slabs.len() == st.slabs.len(),
        forall|i: int|
            0 <= i < st.slabs.len() ==> (#[trigger] st.drained().slabs[i]).free =~= st.slabs[i].free
                && st.drained().slabs[i].page_start == st.slabs[i].page_start,
        st.drained().ok(),
    decreases st.rank(),
{
    if st.cpu.head is Some {
        st.lemma_advanced();
        let a = st.advanced();
        assert(st.drained() == a.drained());
        assert(!a.ready());
        assert forall|i: int| 0 <= i < st.slabs.len() implies (#[trigger] a.slabs[i]).free
            =~= st.slabs[i].free by {}
        lemma_drained_free(a);
        assert forall|i: int| 0 <= i < st.slabs.len() implies (#[trigger] st.drained().slabs[i]).free
            =~= st.slabs[i].free && st.drained().slabs[i].page_start == st.slabs[i].page_start by {
            assert(a.slabs[i].free =~= st.slabs[i].free);
        }
    }
}

/// An object comes from those of the cpu itself, and where it has none, from those that have been
/// given back to its active slab, all of which it takes over.
pub proof fn law_cpu_takes_from_itself_and_its_slab(m: CacheModel, c: int, page_start: int)
    requires
        m.ok(),
        0 <= c < m.cpus.len(),
        m.state(c).needs_pages() ==> can_add(m, page_start),
    ensures
        ({
            let cpu = m.cpus[c];
            let after = after_one(m, c, page_start);
            let o = next_object(m, c, page_start);
            &&& after.cpus.len() == m.cpus.len()
            &&& forall|d: int|
                0 <= d < m.cpus.len() && d != c ==> #[trigger] after.cpus[d] == m.cpus[d]
            &&& cpu.free.len() > 0 ==> {
                &&& o == cpu.free.last()
                &&& after.cpus[c] == (cpu::CpuModel { free: cpu.free.drop_last(), ..cpu })
                &&& after.slabs == m.slabs
            }
            &&& cpu.free.len() == 0 ==> (cpu.slab matches Some(s) ==> {
                let free = m.slabs[s as int].free;
                free.len() > 0 ==> {
                    &&& o == free.last()
                    &&& after.cpus[c] == (cpu::CpuModel { free: free.drop_last(), ..cpu })
                    &&& after.slabs == m.slabs.update(
                        s as int,
                        (list::SlabModel { free: Seq::empty(), ..m.slabs[s as int] }),
                    )
                }
            })
        }),
{
    let st = m.state(c);
    assert(st.ok());
    assert(st.ready() == (m.cpus[c].free.len() > 0));
}

/// Where neither a cpu nor its active slab has a free object, the first slab of its list becomes the
/// active one and gives its free objects to the cpu. The slab that was active takes its place,
/// unless all of its objects are in use.
pub proof fn law_first_listed_slab_becomes_active(m: CacheModel, c: int, page_start: int, h: usize)
    requires
        m.ok(),
        0 <= c < m.cpus.len(),
        m.cpus[c].free.len() == 0,
        m.cpus[c].slab matches Some(s) ==> m.slabs[s as int].free.len() == 0,
        m.cpus[c].head == Some(h),
        m.slabs[h as int].free.len() > 0,
    ensures
        ({
            let cpu = m.cpus[c];
            let after = after_one(m, c, page_start);
            &&& next_object(m, c, page_start) == m.slabs[h as int].free.last()
            &&& after.cpus[c].free == m.slabs[h as int].free.drop_last()
            &&& after.cpus[c].slab == Some(h)
            &&& after.slabs.len() == m.slabs.len()
            &&& after.slabs[h as int].free.len() == 0
            &&& after.slabs[h as int].inuse == m.slabs[h as int].objects
            &&& after.slabs[h as int].frozen
            &&& forall|s: int| 0 <= s < m.slabs.len() && s != h ==> {
                &&& (#[trigger] after.slabs[s]).free == m.slabs[s].free
                &&& after.slabs[s].inuse == m.slabs[s].inuse
            }
            &&& forall|s: int| 0 <= s < m.slabs.len() ==> {
                &&& (#[trigger] after.slabs[s]).page_start == m.slabs[s].page_start
                &&& after.slabs[s].objects == m.slabs[s].objects
            }
            &&& cpu.slab is None ==> after.cpus[c].head is None && after.cpus[c].len == cpu.len - 1
            &&& cpu.slab matches Some(s) ==> {
                let full = m.slabs[s as int].objects == m.slabs[s as int].inuse;
                &&& full ==> after.cpus[c].head is None && after.cpus[c].len == cpu.len - 1
                    && !after.slabs[s as int].frozen
                &&& !full ==> after.cpus[c].head == Some(s) && after.cpus[c].len == cpu.len
                    && after.slabs[s as int].next is None && after.slabs[s as int].frozen
                    == m.slabs[s as int].frozen
            }
        }),
{
    let st = m.state(c);
    assert(st.ok());
    st.lemma_advanced();
    assert(!st.ready() && !st.can_reload());
    assert(st.advanced().ready());
    assert(st.advanced().drained() == st.advanced());
    assert(st.drained() == st.advanced().drained());
}

/// Where a cpu, its active slab and the first slab of its list have no free object, the objects of a
/// new slab are the free ones of the cpu, but for the first, which is at the start of the pages and
/// is handed out.
pub proof fn law_new_slab_becomes_active(m: CacheModel, c: int, page_start: int)
    requires
        m.ok(),
        0 <= c < m.cpus.len(),
        m.state(c).needs_pages(),
        can_add(m, page_start),
    ensures
        ({
            let after = after_one(m, c, page_start);
            let n = m.slabs.len() as int;
            &&& next_object(m, c, page_start) == page_start
            &&& after.slabs.len() == n + 1
            &&& after.slabs[n].page_start == page_start
            &&& after.slabs[n].free.len() == 0
            &&& after.cpus[c].slab == Some(n as usize)
            &&& after.cpus[c].free == list::new_slab(page_start, m.pages, m.size).free.drop_last()
            &&& forall|s: int|
                0 <= s < n ==> (#[trigger] after.slabs[s]).free == m.slabs[s].free
                    && after.slabs[s].page_start == m.slabs[s].page_start
        }),
{
    let st = m.state(c);
    assert(st.ok());
    lemma_drained_free(st);
    list::law_slab_is_filled(page_start, m.pages, m.size);
    let d = st.drained();
    let new = list::new_slab(page_start, m.pages, m.size);
    lemma_more_known(d, new);
    let more = cpu::CpuState { slabs: d.slabs.push(new), ..d };
    more.lemma_replaced(m.slabs.len() as usize);
    assert(more.slabs[m.slabs.len() as int] == new);
    let after = after_one(m, c, page_start);
    assert forall|s: int| 0 <= s < m.slabs.len() implies (#[trigger] after.slabs[s]).free
        == m.slabs[s].free && after.slabs[s].page_start == m.slabs[s].page_start by {
        assert(more.slabs[s] == d.slabs[s]);
        assert(d.slabs[s].free =~= m.slabs[s].free);
    }
}

/// An object that is given back goes to the cpu where its slab is the active one there, and else to
/// its slab, in either case before the free objects that are there. A slab of which all objects were
/// in use becomes the first of the list of the cpu, unless it is an active slab.
pub proof fn law_where_objects_go(m: CacheModel, c: int, slab: usize, o: usize)
    requires
        m.ok(),
        0 <= c < m.cpus.len(),
        slab < m.slabs.len(),
    ensures
        ({
            let cpu = m.cpus[c];
            let s = m.slabs[slab as int];
            let after = m.with_state(c, m.state(c).returned(slab, o));
            let lists = !s.frozen && s.objects == s.inuse;
            &&& after.cpus.len() == m.cpus.len()
            &&& forall|d: int|
                0 <= d < m.cpus.len() && d != c ==> #[trigger] after.cpus[d] == m.cpus[d]
            &&& after.slabs.len() == m.slabs.len()
            &&& cpu.slab == Some(slab) ==> {
                &&& after.cpus[c] == (cpu::CpuModel { free: cpu.free.push(o), ..cpu })
                &&& after.slabs == m.slabs
            }
            &&& cpu.slab != Some(slab) ==> {
                &&& after.cpus[c].free == cpu.free
                &&& after.cpus[c].slab == cpu.slab
                &&& after.slabs[slab as int].free == s.free.push(o)
                &&& s.inuse > 0 ==> after.slabs[slab as int].inuse == s.inuse - 1
                &&& s.inuse > 0 ==> after.slabs[slab as int].objects == s.objects
                &&& s.inuse > 0 ==> after.slabs[slab as int].frozen == s.frozen
                &&& lists ==> after.cpus[c].head == Some(slab) && after.cpus[c].len == cpu.len + 1
                    && after.slabs[slab as int].next == cpu.head
                &&& !lists ==> after.cpus[c] == cpu
                &&& forall|t: int| 0 <= t < m.slabs.len() && t != slab ==> {
                    &&& (#[trigger] after.slabs[t]).free == m.slabs[t].free
                    &&& after.slabs[t].inuse == m.slabs[t].inuse
                    &&& after.slabs[t].objects == m.slabs[t].objects
                    &&& after.slabs[t].frozen == m.slabs[t].frozen
                }
            }
        }),
{
    assert(m.state(c).ok());
}

/// The slabs of the cpus can be given up one by one just where no two places have the same slab. So
/// it is where each slab is in one place.
pub proof fn law_apart(m: CacheModel)
    ensures
        m.apart() <==> forall|c: int, d: int| #![trigger m.cpus[c], m.cpus[d]]
            0 <= c < m.cpus.len() && 0 <= d < m.cpus.len() ==> {
                &&& m.cpus[c].slab is Some ==> m.cpus[c].slab != m.cpus[d].head
                &&& m.cpus[c].slab is Some && c != d ==> m.cpus[c].slab != m.cpus[d].slab
                &&& m.cpus[c].head is Some && c != d ==> m.cpus[c].head != m.cpus[d].head
            },
        m.placed_once() ==> m.apart(),
{
    if m.apart() {
        assert forall|c: int, d: int| #![trigger m.cpus[c], m.cpus[d]]
            0 <= c < m.cpus.len() && 0 <= d < m.cpus.len() implies {
            &&& m.cpus[c].slab is Some ==> m.cpus[c].slab != m.cpus[d].head
            &&& m.cpus[c].slab is Some && c != d ==> m.cpus[c].slab != m.cpus[d].slab
            &&& m.cpus[c].head is Some && c != d ==> m.cpus[c].head != m.cpus[d].head
        } by {
            assert(m.places_differ(c, d));
        }
    }
}

/// Where a new slab becomes the active one of a cpu whose list is empty, the slab that was active is
/// listed, unless all of its objects are in use.
pub proof fn law_active_slab_is_listed_for_a_new_one(m: CacheModel, c: int, page_start: int)
    requires
        m.ok(),
        0 <= c < m.cpus.len(),
        m.state(c).needs_pages(),
        m.cpus[c].head is None,
        can_add(m, page_start),
    ensures
        ({
            let cpu = m.cpus[c];
            let after = after_one(m, c, page_start);
            &&& cpu.slab is None ==> after.cpus[c].head is None && after.cpus[c].len == cpu.len
            &&& cpu.slab matches Some(s) ==> {
                let full = m.slabs[s as int].objects == m.slabs[s as int].inuse;
                &&& full ==> after.cpus[c].head is None && after.cpus[c].len == cpu.len
                    && !after.slabs[s as int].frozen
                &&& !full ==> after.cpus[c].head == Some(s) && after.cpus[c].len == cpu.len + 1
                    && after.slabs[s as int].frozen == m.slabs[s as int].frozen
                &&& after.slabs[s as int].inuse == m.slabs[s as int].inuse
                &&& after.slabs[s as int].objects == m.slabs[s as int].objects
            }
        }),
{
    let st = m.state(c);
    assert(st.ok());
    assert(st.drained() == st);
}

/// Where the first slab of the list of a cpu has no free object either, a new slab becomes the
/// active one, and the list is empty: that slab, and the one that was active, count all of their
/// objects as in use and are no longer marked.
pub proof fn law_list_without_objects_is_given_up(m: CacheModel, c: int, page_start: int, h: usize)
    requires
        m.ok(),
        0 <= c < m.cpus.len(),
        m.state(c).needs_pages(),
        m.cpus[c].head == Some(h),
        m.cpus[c].slab != Some(h),
        can_add(m, page_start),
    ensures
        ({
            let cpu = m.cpus[c];
            let after = after_one(m, c, page_start);
            &&& after.cpus[c].head is None
            &&& after.cpus[c].len == cpu.len - 1
            &&& after.slabs[h as int].inuse == m.slabs[h as int].objects
            &&& !after.slabs[h as int].frozen
            &&& cpu.slab matches Some(s) ==> after.slabs[s as int].inuse == m.slabs[s as int].objects
                && !after.slabs[s as int].frozen
        }),
{
    let st = m.state(c);
    assert(st.ok());
    st.lemma_needs_pages();
    st.lemma_advanced();
    let a = st.advanced();
    assert(st.slabs[h as int].free.len() == 0);
    assert(!a.ready());
    assert(st.drained() == a.drained());
    if a.cpu.head is Some {
        a.lemma_advanced();
        let b = a.advanced();
        assert(!b.ready());
        assert(b.cpu.head is None);
        assert(b.drained() == b);
        assert(a.drained() == b);
    } else {
        assert(a.drained() == a);
    }
}

} // verus!
