//! What each cpu keeps for itself.

use crate::memory::{self, Memory};
use crate::slab::list::{self, SlabList, SlabTable};
use crate::slab::objects::{self, FreeList};
use cache_padded::CachePadded;
use smallvec::SmallVec;
use vstd::prelude::*;

verus! {

/// What a cpu keeps.
pub struct CpuModel {
    /// The free objects; the one that is taken first is the last.
    pub free: Seq<usize>,
    /// The active slab.
    pub slab: Option<usize>,
    /// The first slab of the list of slabs with free objects.
    pub head: Option<usize>,
    /// The length of that list.
    pub len: nat,
}

/// What a cpu keeps, and all slabs.
pub struct CpuState {
    pub cpu: CpuModel,
    pub slabs: Seq<list::SlabModel>,
}

/// A cpu that keeps nothing.
pub open spec fn idle() -> CpuModel {
    CpuModel { free: Seq::empty(), slab: None, head: None, len: 0 }
}

impl CpuState {
    /// The indices that the cpu and the slabs hold are those of slabs.
    pub open spec fn ok(self) -> bool {
        &&& list::known(self.slabs, self.cpu.slab)
        &&& list::known(self.slabs, self.cpu.head)
        &&& self.cpu.head is Some ==> self.cpu.len > 0
        &&& list::links_known(self.slabs)
    }

    /// A slab is put before the others of the list.
    pub open spec fn listed(self, slab: usize) -> CpuState {
        CpuState {
            cpu: CpuModel { head: Some(slab), len: self.cpu.len + 1, ..self.cpu },
            slabs: list::list_pushed(self.slabs, self.cpu.head, slab),
        }
    }

    /// The first slab of the list is taken out.
    pub open spec fn unlisted(self) -> CpuState {
        CpuState {
            cpu: CpuModel { head: None, len: (self.cpu.len - 1) as nat, ..self.cpu },
            slabs: list::list_popped(self.slabs, self.cpu.head->0),
        }
    }

    /// The free objects of a slab replace those of the cpu. With `froze` it becomes an active
    /// slab.
    pub open spec fn loaded(self, slab: usize, froze: bool) -> CpuState {
        CpuState {
            cpu: CpuModel { free: self.slabs[slab as int].free, ..self.cpu },
            slabs: self.slabs.update(slab as int, self.slabs[slab as int].taken(froze)),
        }
    }

    /// `slab` becomes the active slab. The one that was active before is listed, unless all of its
    /// objects are in use.
    pub open spec fn replaced(self, slab: usize) -> CpuState {
        let s = self.loaded(slab, true);
        let t = CpuState { cpu: CpuModel { slab: Some(slab), ..s.cpu }, ..s };
        match self.cpu.slab {
            None => t,
            Some(old) => {
                let u = CpuState {
                    slabs: t.slabs.update(
                        old as int,
                        list::thawed(t.slabs[old as int]),
                    ),
                    ..t
                };
                if t.slabs[old as int].is_full() {
                    u
                } else {
                    u.listed(old)
                }
            },
        }
    }

    /// The cpu has a free object.
    pub open spec fn ready(self) -> bool {
        self.cpu.free.len() > 0
    }

    /// Objects have been given back to the active slab.
    pub open spec fn can_reload(self) -> bool {
        self.cpu.slab is Some && self.slabs[self.cpu.slab->0 as int].free.len() > 0
    }

    /// The length of the list fits its type while the cpu is served.
    pub open spec fn can_list(self) -> bool {
        self.ready() || self.can_reload() || self.cpu.len < usize::MAX
    }

    /// The first slab of the list becomes the active one.
    pub open spec fn advanced(self) -> CpuState {
        self.unlisted().replaced(self.cpu.head->0)
    }

    /// How often the list can be drawn on.
    pub open spec fn rank(self) -> nat {
        if self.cpu.head is None {
            0
        } else if self.cpu.slab is Some && !self.slabs[self.cpu.slab->0 as int].is_full() {
            2
        } else {
            1
        }
    }

    /// How many steps, at most, lead to a free object.
    pub open spec fn distance(self) -> nat {
        if self.ready() {
            0
        } else if self.can_reload() {
            1
        } else {
            2 + self.rank()
        }
    }

    /// The list has been drawn on until a free object is there or the list is empty.
    pub open spec fn drained(self) -> CpuState
        decreases self.rank(),
        when self.ok()
    {
        if self.ready() || self.cpu.head is None {
            self
        } else {
            proof {
                self.lemma_advanced();
            }
            self.advanced().drained()
        }
    }

    /// A new slab is needed to have a free object.
    pub open spec fn needs_pages(self) -> bool {
        !self.ready() && !self.can_reload() && !self.drained().ready()
    }

    /// A new slab of the pages from `page_start` on has become the active one.
    pub open spec fn grown(self, page_start: int, pages: nat, size: nat) -> CpuState {
        CpuState {
            slabs: self.slabs.push(list::new_slab(page_start, pages, size)),
            ..self
        }.replaced(self.slabs.len() as usize)
    }

    /// The cpu has a free object: its own, or one that was given back to its active slab, or one of
    /// a slab of its list, or one of a new slab.
    pub open spec fn served(self, page_start: int, pages: nat, size: nat) -> CpuState {
        if self.ready() {
            self
        } else if self.can_reload() {
            self.loaded(self.cpu.slab->0, false)
        } else {
            let drained = self.drained();
            if drained.ready() {
                drained
            } else {
                drained.grown(page_start, pages, size)
            }
        }
    }

    /// A free object has been taken.
    pub open spec fn popped(self) -> CpuState {
        CpuState { cpu: CpuModel { free: self.cpu.free.drop_last(), ..self.cpu }, ..self }
    }

    /// An object of `slab` has been given back: to the cpu where it is the active slab, else to the
    /// slab, which is listed where all of its objects were in use.
    pub open spec fn returned(self, slab: usize, object: usize) -> CpuState {
        if self.cpu.slab == Some(slab) {
            CpuState { cpu: CpuModel { free: self.cpu.free.push(object), ..self.cpu }, ..self }
        } else {
            let s = self.slabs[slab as int];
            let t = CpuState { slabs: self.slabs.update(slab as int, s.pushed(object)), ..self };
            if !s.frozen && s.is_full() {
                t.listed(slab)
            } else {
                t
            }
        }
    }

    /// Drawing on the list goes on with the indices of slabs, and comes to an end.
    pub proof fn lemma_advanced(self)
        requires
            self.ok(),
            self.cpu.head is Some,
        ensures
            self.advanced().ok(),
            self.advanced().rank() < self.rank(),
            self.advanced().cpu.slab == self.cpu.head,
            !self.advanced().can_reload(),
            self.advanced().cpu.len <= self.cpu.len,
            self.advanced().slabs.len() == self.slabs.len(),
            forall|i: int|
                0 <= i < self.slabs.len() ==> (#[trigger] self.advanced().slabs[i]).page_start
                    == self.slabs[i].page_start,
    {
        let h = self.cpu.head->0;
        let u = self.unlisted();
        lemma_popped(self.slabs, h);
        u.lemma_replaced(h);
    }

    /// A new slab is needed just where no object is free in the cpu, in its active slab or in the
    /// first slab of its list.
    pub proof fn lemma_needs_pages(self)
        requires
            self.ok(),
        ensures
            self.needs_pages() == (!self.ready() && !self.can_reload() && (self.cpu.head is None
                || self.slabs[self.cpu.head->0 as int].free.len() == 0)),
    {
        if !self.ready() && !self.can_reload() && self.cpu.head is Some {
            let h = self.cpu.head->0;
            self.lemma_advanced();
            let u = self.unlisted();
            lemma_popped(self.slabs, h);
            u.lemma_replaced(h);
            assert(u.slabs[h as int].free == self.slabs[h as int].free);
            let a = self.advanced();
            if !a.ready() && a.cpu.head is Some {
                a.lemma_advanced();
                let k = a.cpu.head->0;
                lemma_popped(a.slabs, k);
                a.unlisted().lemma_replaced(k);
                assert(a.unlisted().slabs[k as int].free == a.slabs[k as int].free);
                assert(u.slabs[k as int].free == self.slabs[k as int].free);
                assert(a.slabs[k as int].free == u.slabs[k as int].free);
                let b = a.advanced();
                assert(!b.ready());
                assert(b.cpu.head is None);
                assert(b.drained() == b);
                assert(a.drained() == b);
            }
            assert(self.drained() == a.drained());
        }
    }

    /// Drawing on the list does not change how the cpu is served.
    pub proof fn lemma_advanced_served(self)
        requires
            self.ok(),
            self.cpu.head is Some,
            !self.ready(),
            !self.can_reload(),
        ensures
            self.advanced().needs_pages() == self.needs_pages(),
            forall|p: int, pages: nat, size: nat| #[trigger]
                self.advanced().served(p, pages, size) == self.served(p, pages, size),
    {
        self.lemma_advanced();
    }

    /// Making a slab the active one keeps to the indices of slabs.
    pub proof fn lemma_replaced(self, slab: usize)
        requires
            list::known(self.slabs, self.cpu.slab),
            list::known(self.slabs, self.cpu.head),
            list::links_known(self.slabs),
            slab < self.slabs.len(),
        ensures
            self.replaced(slab).cpu.head is Some ==> self.replaced(slab).cpu.len > 0
                || self.cpu.head is Some,
            self.cpu.head is None ==> self.replaced(slab).cpu.head == (match self.cpu.slab {
                Some(old) => if old != slab && !self.slabs[old as int].is_full() {
                    Some(old)
                } else {
                    None
                },
                None => None,
            }),
            list::known(self.replaced(slab).slabs, self.replaced(slab).cpu.head),
            list::links_known(self.replaced(slab).slabs),
            self.replaced(slab).cpu.slab == Some(slab),
            self.replaced(slab).slabs[slab as int].is_full(),
            self.replaced(slab).slabs[slab as int].free.len() == 0,
            self.replaced(slab).cpu.free == self.slabs[slab as int].free,
            self.cpu.len <= self.replaced(slab).cpu.len <= self.cpu.len + 1,
            forall|i: int|
                0 <= i < self.slabs.len() ==> (#[trigger] self.replaced(slab).slabs[i]).page_start
                    == self.slabs[i].page_start && (i != slab ==> self.replaced(slab).slabs[i].free
                    == self.slabs[i].free),
            self.replaced(slab).slabs.len() == self.slabs.len(),
    {
        let s = self.loaded(slab, true);
        let t = CpuState { cpu: CpuModel { slab: Some(slab), ..s.cpu }, ..s };
        match self.cpu.slab {
            None => {},
            Some(old) => {
                let u = CpuState {
                    slabs: t.slabs.update(
                        old as int,
                        list::thawed(t.slabs[old as int]),
                    ),
                    ..t
                };
                lemma_pushed(u.slabs, u.cpu.head, old);
            },
        }
    }
}

/// Only the links of slabs differ.
pub open spec fn relinked(
    slabs: Seq<list::SlabModel>,
    after: Seq<list::SlabModel>,
) -> bool {
    &&& after.len() == slabs.len()
    &&& forall|i: int|
        0 <= i < slabs.len() ==> #[trigger] after[i] == (list::SlabModel {
            prev: after[i].prev,
            next: after[i].next,
            ..slabs[i]
        })
}

/// Taking the first slab out of a list changes links only.
pub proof fn lemma_popped(slabs: Seq<list::SlabModel>, head: usize)
    requires
        head < slabs.len(),
        list::links_known(slabs),
    ensures
        relinked(slabs, list::list_popped(slabs, head)),
        list::links_known(list::list_popped(slabs, head)),
{
    assert(list::known(slabs, slabs[head as int].next));
}

/// Putting a slab into a list changes links only.
pub proof fn lemma_pushed(
    slabs: Seq<list::SlabModel>,
    head: Option<usize>,
    slab: usize,
)
    requires
        slab < slabs.len(),
        list::known(slabs, head),
        list::links_known(slabs),
    ensures
        relinked(slabs, list::list_pushed(slabs, head, slab)),
        list::links_known(list::list_pushed(slabs, head, slab)),
{
}

/// What a cpu keeps for itself.
pub struct MemCacheCpu {
    freelist: FreeList,
    slab: Option<usize>,
    partial: SlabList,
}

impl View for MemCacheCpu {
    type V = CpuModel;

    closed spec fn view(&self) -> CpuModel {
        CpuModel {
            free: self.freelist@,
            slab: self.slab,
            head: self.partial.first(),
            len: self.partial.count(),
        }
    }
}

impl MemCacheCpu {
    /// The cpu and the slabs.
    pub open spec fn with(&self, slabs: SlabTable) -> CpuState {
        CpuState { cpu: self@, slabs: slabs@ }
    }

    pub proof fn lemma_len(&self)
        ensures
            self@.len <= usize::MAX,
    {
        self.partial.lemma_count();
    }

    pub fn new() -> (r: Self)
        ensures
            r@ == idle(),
    {
        MemCacheCpu { freelist: FreeList::new(), slab: None, partial: SlabList::new() }
    }

    /// Takes a free object, if there is one.
    pub fn freelist_pop(&mut self, mem: &Memory<'_>) -> (r: Option<usize>)
        requires
            objects::linked(*mem, old(self)@.free),
        ensures
            r is Some == (old(self)@.free.len() > 0),
            r matches Some(object) ==> object == old(self)@.free.last(),
            final(self)@ == (if old(self)@.free.len() > 0 {
                CpuModel { free: old(self)@.free.drop_last(), ..old(self)@ }
            } else {
                old(self)@
            }),
    {
        self.freelist.pop(mem)
    }

    /// Gives a free object back.
    pub fn freelist_push(&mut self, mem: &mut Memory<'_>, object: usize)
        requires
            object > 0,
            old(mem).has_word(object as int),
        ensures
            memory::wrote(*old(mem), *final(mem), set![object as int]),
            final(mem).word_at(object as int) == objects::top(old(self)@.free),
            final(self)@ == (CpuModel { free: old(self)@.free.push(object), ..old(self)@ }),
    {
        self.freelist.push(mem, object);
    }

    /// The active slab.
    pub fn slab(&self) -> (r: Option<usize>)
        ensures
            r == self@.slab,
    {
        self.slab
    }

    /// Whether the cpu has a free object.
    pub fn has_free(&self) -> (r: bool)
        ensures
            r == (self@.free.len() > 0),
    {
        !self.freelist.is_empty()
    }

    /// The first slab of the list of slabs with free objects.
    pub fn first_partial(&self) -> (r: Option<usize>)
        ensures
            r == self@.head,
    {
        self.partial.head()
    }

    /// The length of the list of slabs with free objects.
    pub fn partial_len(&self) -> (r: usize)
        ensures
            r == self@.len,
    {
        self.partial.len()
    }

    /// Makes `new_slab` the active slab.
    pub fn replace_slab(&mut self, slabs: &mut SlabTable, new_slab: usize)
        requires
            old(self).with(*old(slabs)).ok(),
            new_slab < old(slabs)@.len(),
            old(self)@.len < usize::MAX,
        ensures
            final(self).with(*final(slabs)) == old(self).with(*old(slabs)).replaced(new_slab),
    {
        let freelist = slabs.take_freelist(new_slab, true);
        self.replace_freelist(freelist);
        let old_slab = self.slab;
        self.slab = Some(new_slab);
        if let Some(slab) = old_slab {
            let is_full = slabs.thaw_if_full(slab);
            if !is_full {
                self.partial.push(slabs, slab);
            }
        }
    }

    pub fn replace_freelist(&mut self, freelist: FreeList)
        ensures
            final(self)@ == (CpuModel { free: freelist@, ..old(self)@ }),
    {
        self.freelist = freelist;
    }

    /// Puts a slab into the list of slabs with free objects.
    pub fn push_partial(&mut self, slabs: &mut SlabTable, slab: usize)
        requires
            old(self).with(*old(slabs)).ok(),
            slab < old(slabs)@.len(),
            old(self)@.len < usize::MAX,
        ensures
            final(self).with(*final(slabs)) == old(self).with(*old(slabs)).listed(slab),
    {
        self.partial.push(slabs, slab);
    }

    /// Takes the first slab out of the list of slabs with free objects.
    pub fn pop_partial(&mut self, slabs: &mut SlabTable) -> (r: Option<usize>)
        requires
            old(self).with(*old(slabs)).ok(),
        ensures
            r == old(self)@.head,
            final(self).with(*final(slabs)) == (if r is Some {
                old(self).with(*old(slabs)).unlisted()
            } else {
                old(self).with(*old(slabs))
            }),
    {
        self.partial.pop(slabs)
    }

    /// Takes the active slab.
    pub fn take_slab(&mut self) -> (r: Option<usize>)
        ensures
            r == old(self)@.slab,
            final(self)@ == (CpuModel { slab: None, ..old(self)@ }),
    {
        let r = self.slab;
        self.slab = None;
        r
    }
}

/// The most cpus. What they keep is held in a vector, which panics where its bytes exceed
/// `isize::MAX`; with so many cpus they do not, on machines of 32 bits either.
pub const MAX_CPUS: usize = 0x40_0000;

/// What the cpus keep, on cache lines of their own.
#[verifier::external_body]
pub struct CpuSlabs {
    slabs: SmallVec<[CachePadded<MemCacheCpu>; 8]>,
}

/// What each cpu keeps.
pub uninterp spec fn cpu_contents(cpus: CpuSlabs) -> Seq<MemCacheCpu>;

impl CpuSlabs {
    /// [`SmallVec::new`] makes an empty vector.
    #[verifier::external_body]
    pub(crate) fn new() -> (r: CpuSlabs)
        ensures
            cpu_contents(r) == Seq::<MemCacheCpu>::empty(),
    {
        CpuSlabs { slabs: SmallVec::new() }
    }

    /// [`SmallVec::push`] appends an item, here one that [`CachePadded::new`] wraps. It panics
    /// where the capacity would overflow, which the bound leaves out.
    #[verifier::external_body]
    pub(crate) fn push(&mut self, cpu: MemCacheCpu)
        requires
            cpu_contents(*old(self)).len() < MAX_CPUS,
        ensures
            cpu_contents(*final(self)) == cpu_contents(*old(self)).push(cpu),
    {
        self.slabs.push(CachePadded::new(cpu));
    }

    /// [`SmallVec::len`] is the number of items.
    #[verifier::external_body]
    pub(crate) fn len(&self) -> (r: usize)
        ensures
            r == cpu_contents(*self).len(),
    {
        self.slabs.len()
    }

    /// Indexing a [`SmallVec`] gives the item at the index. It panics beyond the end.
    #[verifier::external_body]
    pub(crate) fn get(&self, index: usize) -> (r: &MemCacheCpu)
        requires
            index < cpu_contents(*self).len(),
        ensures
            *r == cpu_contents(*self)[index as int],
    {
        &self.slabs[index]
    }

    /// Indexing a [`SmallVec`] mutably gives the item at the index, and what is written there
    /// becomes the item. It panics beyond the end.
    #[verifier::external_body]
    pub(crate) fn get_mut(&mut self, index: usize) -> (r: &mut MemCacheCpu)
        requires
            index < cpu_contents(*old(self)).len(),
        ensures
            *r == cpu_contents(*old(self))[index as int],
            cpu_contents(*final(self)) == cpu_contents(*old(self)).update(
                index as int,
                *final(r),
            ),
    {
        &mut self.slabs[index]
    }
}

} // verus!
