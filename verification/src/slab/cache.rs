//! An allocator for objects of one size.

use crate::memory::Memory;
use crate::slab::cpu::{self, CpuSlabs, MemCacheCpu};
use crate::slab::list::{self, Slab, SlabList, SlabTable};
use crate::slab::model;
use crate::slab::objects;
use crate::slab::stored;
use crate::slab::{align_down, Env, PAGE_SIZE};
use vstd::prelude::*;

verus! {

/// An allocator for objects of one size. Each cpu takes objects from a slab of its own.
pub struct MemCache<E: Env> {
    cpu_slabs: CpuSlabs,
    /// The size of an object including meta data
    size: usize,
    /// Pages per slab.
    pages: usize,
    max_partial: usize,
    partial: SlabList,
    slabs: SlabTable,
    env: E,
}

impl<E: Env> View for MemCache<E> {
    type V = model::CacheModel;

    closed spec fn view(&self) -> model::CacheModel {
        let cpus = cpu::cpu_contents(self.cpu_slabs);
        model::CacheModel {
            cpus: Seq::new(cpus.len(), |c: int| cpus[c]@),
            slabs: self.slabs@,
            size: self.size as nat,
            pages: self.pages as nat,
            max_partial: self.max_partial as nat,
        }
    }
}

/// The environment has handed out the pages of the slabs and noted them.
pub open spec fn registered<E: Env>(env: E, m: model::CacheModel) -> bool {
    &&& forall|s: int|
        0 <= s < m.slabs.len() ==> env.granted().contains_key((#[trigger] m.slabs[s]).page_start)
            && env.granted()[m.slabs[s].page_start] == m.pages
    &&& forall|s: int, x: int|
        0 <= s < m.slabs.len() && #[trigger] model::in_pages(
            m.slabs[s].page_start,
            m.pages,
            x,
        ) ==> env.slab_at(x) == Some(s as usize)
}

impl<E: Env> MemCache<E> {
    /// Where pages come from.
    pub closed spec fn environment(&self) -> E {
        self.env
    }

    /// What holds of each state.
    pub closed spec fn wf(&self) -> bool {
        &&& self@.ok()
        &&& self.env.wf()
        &&& self.env.sound()
        &&& registered(self.env, self@)
        &&& self.partial.first() is None
        &&& self.partial.count() == 0
    }

    /// What the allocator holds is in order, and its pages have been handed out.
    pub proof fn lemma_ok(&self)
        requires
            self.wf(),
        ensures
            self@.ok(),
            self.environment().wf(),
            self.environment().sound(),
            registered(self.environment(), self@),
    {
    }

    pub fn new(cpu_count: usize, size: usize, pages: usize, max_partial: usize, env: E) -> (r: Self)
        requires
            size >= 8,
            cpu_count <= cpu::MAX_CPUS,
            env.wf(),
            env.sound(),
        ensures
            r.wf(),
            r@ == (model::CacheModel {
                cpus: Seq::new(cpu_count as nat, |c: int| cpu::idle()),
                slabs: Seq::empty(),
                size: size as nat,
                pages: pages as nat,
                max_partial: max_partial as nat,
            }),
            r@.placed_once(),
            r.environment() == env,
    {
        let mut cpu_slabs = CpuSlabs::new();
        let mut i: usize = 0;
        while i < cpu_count
            invariant
                i <= cpu_count <= cpu::MAX_CPUS,
                cpu::cpu_contents(cpu_slabs).len() == i,
                forall|c: int|
                    0 <= c < i ==> (#[trigger] cpu::cpu_contents(cpu_slabs)[c])@ == cpu::idle(),
            decreases cpu_count - i,
        {
            cpu_slabs.push(MemCacheCpu::new());
            i = i + 1;
        }
        let r = MemCache {
            cpu_slabs,
            size,
            pages,
            max_partial,
            partial: SlabList::new(),
            slabs: SlabTable::new(),
            env,
        };
        proof {
            assert(r@.cpus =~= Seq::new(cpu_count as nat, |c: int| cpu::idle()));
        }
        r
    }

    /// Where pages come from.
    pub fn env(&self) -> (r: &E)
        ensures
            *r == self.environment(),
    {
        &self.env
    }

    /// Only the cpus and the slabs may differ.
    closed spec fn same_rest(&self, other: &Self) -> bool {
        &&& self.size == other.size
        &&& self.pages == other.pages
        &&& self.max_partial == other.max_partial
        &&& self.partial == other.partial
        &&& self.env == other.env
    }

    /// Takes a free object of the cpu, if there is one.
    fn pop_free(&mut self, mem: &Memory<'_>, cpu: usize) -> (r: Option<usize>)
        requires
            cpu < old(self)@.cpus.len(),
            objects::linked(*mem, old(self)@.cpus[cpu as int].free),
        ensures
            final(self).same_rest(&*old(self)),
            match r {
                Some(object) => {
                    &&& old(self)@.state(cpu as int).ready()
                    &&& object == old(self)@.cpus[cpu as int].free.last()
                    &&& final(self)@ == old(self)@.with_state(
                        cpu as int,
                        old(self)@.state(cpu as int).popped(),
                    )
                },
                None => {
                    &&& !old(self)@.state(cpu as int).ready()
                    &&& final(self)@ == old(self)@
                },
            },
    {
        let r = self.cpu_slabs.get_mut(cpu).freelist_pop(mem);
        proof {
            if r is Some {
                assert(self@.cpus =~= old(self)@.with_state(
                    cpu as int,
                    old(self)@.state(cpu as int).popped(),
                ).cpus);
            } else {
                assert(self@.cpus =~= old(self)@.cpus);
            }
        }
        r
    }

    /// Takes what has been given back to the active slab of the cpu. Returns whether there was
    /// anything.
    fn reload(&mut self, cpu: usize) -> (r: bool)
        requires
            cpu < old(self)@.cpus.len(),
            old(self)@.state(cpu as int).ok(),
        ensures
            final(self).same_rest(&*old(self)),
            r == old(self)@.state(cpu as int).can_reload(),
            final(self)@ == (if r {
                old(self)@.with_state(
                    cpu as int,
                    old(self)@.state(cpu as int).loaded(old(self)@.cpus[cpu as int].slab->0, false),
                )
            } else {
                old(self)@
            }),
    {
        let ghost m0 = self@;
        let slab = self.cpu_slabs.get(cpu).slab();
        if let Some(cpu_slab) = slab {
            let freelist = self.slabs.take_freelist(cpu_slab, false);
            if !freelist.is_empty() {
                self.cpu_slabs.get_mut(cpu).replace_freelist(freelist);
                proof {
                    assert(self@.cpus =~= m0.with_state(
                        cpu as int,
                        m0.state(cpu as int).loaded(cpu_slab, false),
                    ).cpus);
                }
                return true;
            }
            proof {
                let s = m0.slabs[cpu_slab as int];
                assert(s.free =~= Seq::empty());
                assert(s.taken(false) == s);
                assert(self.slabs@ =~= m0.slabs);
            }
        }
        false
    }

    /// Makes the first slab of the list of the cpu the active one. Returns whether there was any.
    fn advance(&mut self, cpu: usize) -> (r: bool)
        requires
            cpu < old(self)@.cpus.len(),
            old(self)@.state(cpu as int).ok(),
        ensures
            final(self).same_rest(&*old(self)),
            r == old(self)@.cpus[cpu as int].head is Some,
            final(self)@ == (if r {
                old(self)@.with_state(cpu as int, old(self)@.state(cpu as int).advanced())
            } else {
                old(self)@
            }),
    {
        let ghost m0 = self@;
        let ghost st = m0.state(cpu as int);
        proof {
            cpu::cpu_contents(self.cpu_slabs)[cpu as int].lemma_len();
        }
        let cache_cpu = self.cpu_slabs.get_mut(cpu);
        match cache_cpu.pop_partial(&mut self.slabs) {
            Some(slab) => {
                proof {
                    cpu::lemma_popped(st.slabs, slab);
                }
                cache_cpu.replace_slab(&mut self.slabs, slab);
                proof {
                    assert(self@.cpus =~= m0.with_state(cpu as int, st.advanced()).cpus);
                }
                true
            },
            None => {
                proof {
                    assert(self@.cpus =~= m0.cpus);
                }
                false
            },
        }
    }

    /// Makes a new slab. Returns its index.
    fn new_slab(&mut self, mem: &mut Memory<'_>) -> (r: usize)
        requires
            old(self).wf(),
            old(self).can_grow(),
            stored::stored(*old(mem), old(self)@),
            old(self).pages_in(*old(mem)),
        ensures
            final(self).wf(),
            stored::stored(*final(mem), final(self)@),
            final(self).pages_in(*final(mem)),
            final(mem).base() == old(mem).base(),
            final(mem).limit() == old(mem).limit(),
            stored::live_kept(*old(mem), *final(mem), old(self)@, 0),
            r == old(self)@.slabs.len(),
            old(self).grew(&*final(self)),
            final(self)@ == (model::CacheModel {
                slabs: old(self)@.slabs.push(
                    list::new_slab(
                        new_page(old(self)@, final(self)@),
                        old(self)@.pages,
                        old(self)@.size,
                    ),
                ),
                ..old(self)@
            }),
            forall|x: int| #[trigger] final(self)@.is_live(x) == old(self)@.is_live(x),
    {
        let ghost m0 = self@;
        let ghost env0 = self.env;
        let ghost mem0 = *mem;
        let page_start: usize = self.env.allocate_pages(self.pages);
        let slab = Slab::new(mem, page_start, self.pages, self.size);
        let r: usize = self.slabs.add_slab(slab);
        self.env.set_pages_slab(page_start, self.pages, r);
        proof {
            assert forall|s: int| 0 <= s < m0.slabs.len() implies model::pages_apart(
                (#[trigger] m0.slabs[s]).page_start,
                m0.pages,
                page_start as int,
                m0.pages,
            ) by {
                assert(env0.granted().contains_key(m0.slabs[s].page_start));
            }
            model::lemma_grown(m0, self@, page_start as int);
            assert forall|x: int| #[trigger] self@.is_live(x) == m0.is_live(x) by {
                assert(self@.is_free(x) == (m0.is_free(x) || self@.is_slot(
                    m0.slabs.len() as int,
                    x,
                )));
                assert(self@.is_object(x) == (m0.is_object(x) || self@.is_slot(
                    m0.slabs.len() as int,
                    x,
                )));
            }
            stored::lemma_stored_grown(mem0, *mem, m0, self@, page_start as int);
            assert forall|s: int, x: int|
                0 <= s < self@.slabs.len() && #[trigger] model::in_pages(
                    self@.slabs[s].page_start,
                    self@.pages,
                    x,
                ) implies self.env.slab_at(x) == Some(s as usize) by {
                if s < m0.slabs.len() {
                    assert(self@.slabs[s] == m0.slabs[s]);
                    assert(model::in_pages(m0.slabs[s].page_start, m0.pages, x));
                }
            }
            assert forall|s: int| 0 <= s < self@.slabs.len() implies self.env.granted().contains_key(
                (#[trigger] self@.slabs[s]).page_start,
            ) && self.env.granted()[self@.slabs[s].page_start] == self@.pages by {
                if s < m0.slabs.len() {
                    assert(self@.slabs[s] == m0.slabs[s]);
                }
            }
        }
        r
    }

    /// The pages that the environment has lie in memory.
    pub open spec fn pages_in(&self, mem: Memory<'_>) -> bool {
        mem.base() <= self.environment().low() && self.environment().high() <= mem.limit()
    }

    /// The environment has the pages for a new slab, and objects of the size fit into it.
    pub open spec fn can_grow(&self) -> bool {
        &&& self@.size <= PAGE_SIZE
        &&& 1 <= self@.pages
        &&& self.environment().has_room(self@.pages)
    }

    /// The environment has handed out pages for a new slab and noted it.
    pub open spec fn grew(&self, after: &Self) -> bool {
        let p = new_page(self@, after@);
        let env = self.environment();
        &&& after.environment().granted() == env.granted().insert(p, self@.pages)
        &&& !env.granted().contains_key(p)
        &&& after.environment().current_cpu() == env.current_cpu()
        &&& after.environment().low() == env.low()
        &&& after.environment().high() == env.high()
        &&& forall|x: int| #[trigger]
            after.environment().slab_at(x) == (if model::in_pages(p, self@.pages, x) {
                Some(self@.slabs.len() as usize)
            } else {
                env.slab_at(x)
            })
    }

    /// Makes a new slab the active one of the cpu.
    fn grow(&mut self, mem: &mut Memory<'_>, cpu: usize)
        requires
            old(self).wf(),
            stored::stored(*old(mem), old(self)@),
            old(self).pages_in(*old(mem)),
            cpu < old(self)@.cpus.len(),
            !old(self)@.state(cpu as int).ready(),
            old(self).can_grow(),
            old(self)@.cpus[cpu as int].len < usize::MAX,
        ensures
            final(self).wf(),
            stored::stored(*final(mem), final(self)@),
            final(self).pages_in(*final(mem)),
            final(mem).base() == old(mem).base(),
            final(mem).limit() == old(mem).limit(),
            stored::live_kept(*old(mem), *final(mem), old(self)@, 0),
            old(self).grew(&*final(self)),
            final(self)@ == old(self)@.with_state(
                cpu as int,
                old(self)@.state(cpu as int).grown(
                    new_page(old(self)@, final(self)@),
                    old(self)@.pages,
                    old(self)@.size,
                ),
            ),
            forall|x: int| #[trigger] final(self)@.is_live(x) == old(self)@.is_live(x),
            final(self)@.state(cpu as int).ready(),
    {
        let ghost m0 = self@;
        let slab: usize = self.new_slab(mem);
        let ghost m1 = self@;
        let ghost st = m1.state(cpu as int);
        proof {
            model::lemma_replaced_ok(m1, cpu as int, slab);
            assert(st.ok());
            st.lemma_replaced(slab);
            let p = new_page(m0, m1);
            assert(m1.slabs[slab as int].page_start == p);
            list::lemma_first_object(p, m0.pages, m0.size);
        }
        let cache_cpu = self.cpu_slabs.get_mut(cpu);
        cache_cpu.replace_slab(&mut self.slabs, slab);
        proof {
            assert(self@.cpus =~= m1.with_state(cpu as int, st.replaced(slab)).cpus);
            lemma_still_registered(self.env, m1, self@);
            stored::lemma_stored_rearranged(*mem, m1, self@);
            assert(st.replaced(slab).slabs[slab as int].page_start
                == st.slabs[slab as int].page_start);
            assert forall|x: int| #[trigger] self@.is_live(x) == m0.is_live(x) by {
                assert(m1.is_live(x) == m0.is_live(x));
                assert(self@.is_object(x) == m1.is_object(x));
            }
        }
    }

    /// Whether a new slab is needed to allocate an object on a cpu.
    pub fn needs_pages(&self, cpu: usize) -> (r: bool)
        requires
            self.wf(),
            cpu < self@.cpus.len(),
        ensures
            r == self@.state(cpu as int).needs_pages(),
            r <==> {
                &&& self@.cpus[cpu as int].free.len() == 0
                &&& self@.cpus[cpu as int].slab matches Some(s) ==> self@.slabs[s as int].free.len()
                    == 0
                &&& self@.cpus[cpu as int].head matches Some(h) ==> self@.slabs[h as int].free.len()
                    == 0
            },
    {
        proof {
            model::law_pages_are_needed(self@, cpu as int);
            assert(self@.state(cpu as int).ok());
            self@.state(cpu as int).lemma_needs_pages();
        }
        let cache_cpu = self.cpu_slabs.get(cpu);
        if cache_cpu.has_free() {
            return false;
        }
        if let Some(slab) = cache_cpu.slab() {
            if self.slabs.has_free(slab) {
                return false;
            }
        }
        match cache_cpu.first_partial() {
            Some(slab) => !self.slabs.has_free(slab),
            None => true,
        }
    }

    /// Allocates an object, on the cpu that runs.
    pub fn allocate(&mut self, mem: &mut Memory<'_>) -> (r: usize)
        requires
            old(self).wf(),
            stored::stored(*old(mem), old(self)@),
            old(self).pages_in(*old(mem)),
            old(self).environment().current_cpu() < old(self)@.cpus.len(),
            old(self)@.state(old(self).environment().current_cpu() as int).needs_pages()
                ==> old(self).can_grow(),
            old(self)@.state(old(self).environment().current_cpu() as int).can_list(),
        ensures
            final(self).wf(),
            stored::stored(*final(mem), final(self)@),
            final(self).pages_in(*final(mem)),
            final(mem).base() == old(mem).base(),
            final(mem).limit() == old(mem).limit(),
            stored::live_kept(*old(mem), *final(mem), old(self)@, 0),
            allocated(*old(self), *final(self), old(self).environment().current_cpu() as int, r),
    {
        let cpu: usize = self.env.cpu_id();
        self.allocate_on(mem, cpu)
    }

    /// Allocates an object on a cpu.
    pub fn allocate_on(&mut self, mem: &mut Memory<'_>, cpu: usize) -> (r: usize)
        requires
            old(self).wf(),
            stored::stored(*old(mem), old(self)@),
            old(self).pages_in(*old(mem)),
            cpu < old(self)@.cpus.len(),
            old(self)@.state(cpu as int).needs_pages() ==> old(self).can_grow(),
            old(self)@.state(cpu as int).can_list(),
        ensures
            final(self).wf(),
            stored::stored(*final(mem), final(self)@),
            final(self).pages_in(*final(mem)),
            final(mem).base() == old(mem).base(),
            final(mem).limit() == old(mem).limit(),
            stored::live_kept(*old(mem), *final(mem), old(self)@, 0),
            allocated(*old(self), *final(self), cpu as int, r),
    {
        let ghost c = cpu as int;
        let ghost m0 = self@;
        let ghost s0 = m0.state(c);
        let ghost mut page: int = 0;
        let ghost mut grown = false;
        proof {
            assert(s0.ok());
        }
        loop
            invariant
                self.wf(),
                stored::stored(*mem, self@),
                self.pages_in(*mem),
                mem.base() == old(mem).base(),
                mem.limit() == old(mem).limit(),
                stored::live_kept(*old(mem), *mem, m0, 0),
                c == cpu,
                0 <= c < self@.cpus.len(),
                m0 == old(self)@,
                m0.ok(),
                s0 == m0.state(c),
                s0.ok(),
                self@.size == m0.size,
                self@.pages == m0.pages,
                self@.max_partial == m0.max_partial,
                self@.cpus.len() == m0.cpus.len(),
                forall|d: int|
                    0 <= d < m0.cpus.len() && d != c ==> #[trigger] self@.cpus[d] == m0.cpus[d],
                self@.state(c).rank() <= 2,
                if grown {
                    &&& s0.needs_pages()
                    &&& self@.state(c) == s0.served(page, m0.pages, m0.size)
                    &&& self@.state(c).ready()
                    &&& page == new_page(m0, self@)
                    &&& old(self).grew(self)
                } else {
                    &&& forall|p: int| #[trigger]
                        self@.state(c).served(p, m0.pages, m0.size) == s0.served(
                            p,
                            m0.pages,
                            m0.size,
                        )
                    &&& self@.state(c).needs_pages() == s0.needs_pages()
                    &&& self@.state(c).can_list()
                    &&& self@.slabs.len() == m0.slabs.len()
                    &&& self.env == old(self).env
                    &&& *mem == *old(mem)
                },
                s0.needs_pages() ==> old(self).can_grow(),
                forall|x: int| #[trigger] self@.is_live(x) == m0.is_live(x),
            decreases self@.state(c).distance(),
        {
            let ghost m1 = self@;
            let ghost s1 = m1.state(c);
            assert(s1.ok());
            assert(objects::linked(*mem, m1.list(c)));
            // fast path
            if let Some(object) = self.pop_free(mem, cpu) {
                proof {
                    stored::lemma_stored_popped(*mem, m1, c);
                    model::lemma_popped_ok(m1, c);
                    lemma_still_registered(self.env, m1, self@);
                    let p = new_page(m0, self@);
                    assert(s1.served(p, m0.pages, m0.size) == s1);
                    assert(self@.cpus =~= m0.with_state(c, s1.popped()).cpus);
                    assert forall|x: int| #[trigger] self@.is_live(x) == (m0.is_live(x) || x
                        == object) by {
                        assert(m1.is_live(x) == m0.is_live(x));
                        assert(self@.is_object(x) == m1.is_object(x));
                        assert(self@.is_free(x) == (m1.is_free(x) && x != object));
                    }
                    assert(m1.is_live(object as int) == m0.is_live(object as int));
                    if m0.placed_once() {
                        if s0.needs_pages() {
                            lemma_can_add(m0, self@, c);
                        }
                        model::law_allocate_keeps_places(m0, c, p);
                    }
                }
                return object;
            }
            let _preempt_guard = self.env.preempt_disable();
            if self.reload(cpu) {
                proof {
                    model::lemma_reloaded_ok(m1, c);
                    stored::lemma_stored_rearranged(*mem, m1, self@);
                    lemma_still_registered(self.env, m1, self@);
                    assert(self@.state(c) == s1.loaded(s1.cpu.slab->0, false));
                    lemma_same_live(m1, self@);
                }
                continue ;
            }
            if self.advance(cpu) {
                proof {
                    model::lemma_advanced_ok(m1, c);
                    s1.lemma_advanced();
                    s1.lemma_advanced_served();
                    assert(self@.state(c) == s1.advanced());
                    lemma_still_registered(self.env, m1, self@);
                    stored::lemma_stored_rearranged(*mem, m1, self@);
                    lemma_same_live(m1, self@);
                }
            } else {
                match self.partial.pop(&mut self.slabs) {
                    Some(slab) => {
                        let cache_cpu = self.cpu_slabs.get_mut(cpu);
                        cache_cpu.replace_slab(&mut self.slabs, slab);
                    },
                    None => {
                        let ghost mem1 = *mem;
                        self.grow(mem, cpu);
                        proof {
                            lemma_live_kept_on(mem1, *mem, m0, m1);
                            grown = true;
                            page = new_page(m1, self@);
                            assert(s1.drained() == s1);
                            assert(self@.state(c) == s1.grown(page, m0.pages, m0.size));
                            assert(s1.served(page, m0.pages, m0.size) == self@.state(c));
                        }
                    },
                }
            }
        }
    }

    /// Takes an object back, on the cpu that runs.
    pub fn deallocate(&mut self, mem: &mut Memory<'_>, object: usize)
        requires
            old(self).wf(),
            stored::stored(*old(mem), old(self)@),
            old(self).environment().current_cpu() < old(self)@.cpus.len(),
            old(self)@.is_live(object as int),
            !old(self)@.gives_up(
                old(self).environment().current_cpu() as int,
                old(self)@.slab_of(object as int),
            ),
            old(self)@.can_return(
                old(self).environment().current_cpu() as int,
                old(self)@.slab_of(object as int),
            ),
        ensures
            final(self).wf(),
            stored::stored(*final(mem), final(self)@),
            final(mem).base() == old(mem).base(),
            final(mem).limit() == old(mem).limit(),
            stored::live_kept(*old(mem), *final(mem), old(self)@, object as int),
            deallocated(
                *old(self),
                *final(self),
                old(self).environment().current_cpu() as int,
                object,
            ),
    {
        let cpu: usize = self.env.cpu_id();
        self.deallocate_on(mem, cpu, object)
    }

    /// Takes an object back on a cpu.
    pub fn deallocate_on(&mut self, mem: &mut Memory<'_>, cpu: usize, object: usize)
        requires
            old(self).wf(),
            stored::stored(*old(mem), old(self)@),
            cpu < old(self)@.cpus.len(),
            old(self)@.is_live(object as int),
            !old(self)@.gives_up(cpu as int, old(self)@.slab_of(object as int)),
            old(self)@.can_return(cpu as int, old(self)@.slab_of(object as int)),
        ensures
            final(self).wf(),
            stored::stored(*final(mem), final(self)@),
            final(mem).base() == old(mem).base(),
            final(mem).limit() == old(mem).limit(),
            stored::live_kept(*old(mem), *final(mem), old(self)@, object as int),
            deallocated(*old(self), *final(self), cpu as int, object),
    {
        let ghost m0 = self@;
        let ghost mem0 = *mem;
        let ghost c = cpu as int;
        let ghost st = m0.state(c);
        let slab: usize = self.find_slab(object);
        proof {
            assert(st.ok());
            model::lemma_returned_ok(m0, c, slab, object);
            model::lemma_slab_of(m0, slab as int, object as int);
            stored::lemma_object_stored(mem0, m0, object as int);
        }
        let ghost to = model::returned_to(m0, c, slab);
        proof {
            if m0.placed_once() && m0.keeps_places(c, slab as int) {
                model::law_deallocate_keeps_places(m0, c, slab, object);
            }
        }
        // fast path
        let active = self.cpu_slabs.get(cpu).slab();
        if let Some(cpu_slab) = active {
            if cpu_slab == slab {
                self.cpu_slabs.get_mut(cpu).freelist_push(mem, object);
                proof {
                    assert(self@.cpus =~= m0.with_state(c, st.returned(slab, object)).cpus);
                    lemma_still_registered(self.env, m0, self@);
                    stored::lemma_stored_returned(mem0, *mem, m0, self@, to, object);
                }
                return;
            }
        }
        let (was_full, is_empty) = self.slabs.push_object(mem, slab, object);
        if was_full {
            let _preempt_guard = self.env.preempt_disable();
            let cache_cpu = self.cpu_slabs.get_mut(cpu);
            cache_cpu.push_partial(&mut self.slabs, slab);
        } else if is_empty {
            let _preempt_guard = self.env.preempt_disable();
            // check again
            if self.partial.len() >= self.max_partial && self.slabs.is_empty(slab) {
                self.partial.remove(&mut self.slabs, slab);
                self.discard_slab(slab);
            }
        }
        proof {
            assert(self@.cpus =~= m0.with_state(c, st.returned(slab, object)).cpus);
            lemma_still_registered(self.env, m0, self@);
            stored::lemma_stored_returned(mem0, *mem, m0, self@, to, object);
        }
    }

    /// Gives the pages of a slab back.
    fn discard_slab(&mut self, slab: usize)
        requires
            slab < old(self)@.slabs.len(),
            old(self).env.wf(),
            old(self).env.granted().contains_key(old(self)@.slabs[slab as int].page_start),
            old(self).env.granted()[old(self)@.slabs[slab as int].page_start] == old(self)@.pages,
        ensures
            final(self)@ == old(self)@,
            final(self).partial == old(self).partial,
            final(self).env.wf(),
            old(self).env.sound() ==> final(self).env.sound(),
            final(self).env.granted() == old(self).env.granted().remove(
                old(self)@.slabs[slab as int].page_start,
            ),
            final(self).env.current_cpu() == old(self).env.current_cpu(),
    {
        let page_start: usize = self.slabs.page_start(slab);
        self.env.deallocate_pages(page_start, self.pages);
    }

    /// The slab of an object.
    fn find_slab(&self, object: usize) -> (r: usize)
        requires
            self.wf(),
            self@.is_object(object as int),
        ensures
            r == self@.slab_of(object as int),
            r < self@.slabs.len(),
            self@.is_slot(r as int, object as int),
    {
        proof {
            let s = self@.slab_of(object as int);
            model::lemma_slab_of(self@, s, object as int);
            vstd::arithmetic::power2::lemma2_to64();
            assert(PAGE_SIZE == vstd::arithmetic::power2::pow2(12));
        }
        let page_start: usize = align_down(object, PAGE_SIZE);
        self.env.find_slab_by_page(page_start)
    }

    /// The pages of a slab are those that the environment has handed out.
    closed spec fn has_pages(&self, slab: Option<usize>) -> bool {
        slab matches Some(s) ==> {
            let p = self@.slabs[s as int].page_start;
            self.env.granted().contains_key(p) && self.env.granted()[p] == self@.pages
        }
    }

    /// Gives the pages back of the first slab in the list of the cpu, and of its active slab.
    fn release_cpu(&mut self, cpu: usize)
        requires
            cpu < old(self)@.cpus.len(),
            old(self)@.state(cpu as int).ok(),
            old(self).env.wf(),
            old(self).has_pages(old(self)@.cpus[cpu as int].head),
            old(self).has_pages(old(self)@.cpus[cpu as int].slab),
            old(self)@.cpus[cpu as int].head is Some && old(self)@.cpus[cpu as int].slab is Some
                ==> old(self)@.slabs[old(self)@.cpus[cpu as int].head->0 as int].page_start
                != old(self)@.slabs[old(self)@.cpus[cpu as int].slab->0 as int].page_start,
        ensures
            final(self).env.wf(),
            old(self).env.sound() ==> final(self).env.sound(),
            final(self).partial == old(self).partial,
            final(self)@.pages == old(self)@.pages,
            final(self)@.cpus.len() == old(self)@.cpus.len(),
            final(self)@.cpus[cpu as int].slab is None,
            final(self)@.cpus[cpu as int].head is None,
            forall|d: int|
                0 <= d < old(self)@.cpus.len() && d != cpu ==> #[trigger] final(self)@.cpus[d]
                    == old(self)@.cpus[d],
            cpu::relinked(old(self)@.slabs, final(self)@.slabs),
            list::links_known(final(self)@.slabs),
            final(self).env.granted() == without_slab(
                without_slab(
                    old(self).env.granted(),
                    old(self)@.slabs,
                    old(self)@.cpus[cpu as int].head,
                ),
                old(self)@.slabs,
                old(self)@.cpus[cpu as int].slab,
            ),
    {
        let ghost m0 = self@;
        let ghost st = m0.state(cpu as int);
        let ghost head = st.cpu.head;
        let ghost g0 = self.env.granted();
        loop
            invariant
                cpu < self@.cpus.len(),
                self@.cpus.len() == m0.cpus.len(),
                self@.pages == m0.pages,
                m0 == old(self)@,
                st == m0.state(cpu as int),
                head == st.cpu.head,
                st.ok(),
                self@.state(cpu as int).ok(),
                self.env.wf(),
                old(self).env.sound() ==> self.env.sound(),
                self.partial == old(self).partial,
                self.has_pages(st.cpu.slab),
                self@.cpus[cpu as int].slab == st.cpu.slab,
                self@.cpus[cpu as int].head is Some ==> self@.cpus[cpu as int].head == head
                    && self.has_pages(head),
                head is Some && st.cpu.slab is Some ==> m0.slabs[head->0 as int].page_start
                    != m0.slabs[st.cpu.slab->0 as int].page_start,
                forall|d: int|
                    0 <= d < m0.cpus.len() && d != cpu ==> #[trigger] self@.cpus[d] == m0.cpus[d],
                cpu::relinked(m0.slabs, self@.slabs),
                list::links_known(self@.slabs),
                self.env.granted() == (if self@.cpus[cpu as int].head is Some {
                    g0
                } else {
                    without_slab(g0, m0.slabs, head)
                }),
            ensures
                self@.cpus[cpu as int].head is None,
            decreases
                    (if self@.cpus[cpu as int].head is Some {
                        1int
                    } else {
                        0int
                    }),
        {
            let ghost m1 = self@;
            let ghost s1 = m1.state(cpu as int);
            let cache_cpu = self.cpu_slabs.get_mut(cpu);
            match cache_cpu.pop_partial(&mut self.slabs) {
                Some(slab) => {
                    proof {
                        cpu::lemma_popped(m1.slabs, slab);
                        assert(self@.cpus =~= m1.with_state(cpu as int, s1.unlisted()).cpus);
                        lemma_relinked_twice(m0.slabs, m1.slabs, self@.slabs);
                        assert(self@.slabs[slab as int].page_start
                            == m0.slabs[slab as int].page_start);
                        if st.cpu.slab is Some {
                            let s = st.cpu.slab->0;
                            assert(self@.slabs[s as int].page_start
                                == m0.slabs[s as int].page_start);
                            assert(m1.slabs[s as int].page_start
                                == m0.slabs[s as int].page_start);
                        }
                        assert(m1.slabs[slab as int].page_start
                            == m0.slabs[slab as int].page_start);
                    }
                    self.discard_slab(slab);
                },
                None => {
                    proof {
                        assert(self@.cpus =~= m1.cpus);
                    }
                    break;
                },
            }
        }
        let ghost m2 = self@;
        let slab = self.cpu_slabs.get_mut(cpu).take_slab();
        proof {
            let cpu_after = cpu::CpuModel { slab: None, ..m2.cpus[cpu as int] };
            assert(self@.cpus =~= m2.cpus.update(cpu as int, cpu_after));
        }
        if let Some(slab) = slab {
            proof {
                assert(m2.slabs[slab as int].page_start == m0.slabs[slab as int].page_start);
            }
            self.discard_slab(slab);
        }
    }

    /// Whether no slab is in two places.
    pub fn can_release(&self) -> (r: bool)
        requires
            self.wf(),
        ensures
            r == self@.apart(),
            r <==> forall|c: int, d: int| #![trigger self@.cpus[c], self@.cpus[d]]
                0 <= c < self@.cpus.len() && 0 <= d < self@.cpus.len() ==> {
                    &&& self@.cpus[c].slab is Some ==> self@.cpus[c].slab != self@.cpus[d].head
                    &&& self@.cpus[c].slab is Some && c != d ==> self@.cpus[c].slab
                        != self@.cpus[d].slab
                    &&& self@.cpus[c].head is Some && c != d ==> self@.cpus[c].head
                        != self@.cpus[d].head
                },
    {
        let ghost m = self@;
        proof {
            model::law_apart(m);
        }
        let count: usize = self.cpu_slabs.len();
        let mut c: usize = 0;
        while c < count
            invariant
                c <= count,
                count == m.cpus.len(),
                m == self@,
                forall|a: int, b: int|
                    0 <= a < c && 0 <= b < count ==> #[trigger] m.places_differ(a, b),
            decreases count - c,
        {
            let slab = self.cpu_slabs.get(c).slab();
            let head = self.cpu_slabs.get(c).first_partial();
            let mut d: usize = 0;
            while d < count
                invariant
                    d <= count,
                    c < count,
                    count == m.cpus.len(),
                    m == self@,
                    slab == m.cpus[c as int].slab,
                    head == m.cpus[c as int].head,
                    forall|b: int| 0 <= b < d ==> #[trigger] m.places_differ(c as int, b),
                decreases count - d,
            {
                let other = self.cpu_slabs.get(d);
                let other_slab = other.slab();
                let other_head = other.first_partial();
                assert(other_slab == m.cpus[d as int].slab);
                assert(other_head == m.cpus[d as int].head);
                let one: bool = slab.is_some() && (slab == other_head || (c != d && slab
                    == other_slab));
                let two: bool = head.is_some() && c != d && head == other_head;
                if one || two {
                    assert(!m.places_differ(c as int, d as int));
                    return false;
                }
                d = d + 1;
            }
            c = c + 1;
        }
        true
    }

    /// Whether a cpu can have a slab more in its list.
    pub fn can_list(&self, cpu: usize) -> (r: bool)
        requires
            cpu < self@.cpus.len(),
        ensures
            r == (self@.cpus[cpu as int].len < usize::MAX),
    {
        let cache_cpu = self.cpu_slabs.get(cpu);
        assert(self@.cpus[cpu as int] == cache_cpu@);
        cache_cpu.partial_len() < usize::MAX
    }

    /// Gives the pages back of the slabs that the cpus have: of each the active slab and the first
    /// one of its list. The allocator is of no use after that.
    pub fn release(&mut self)
        requires
            old(self).wf(),
            old(self)@.apart(),
        ensures
            final(self).environment().wf(),
            final(self).environment().sound(),
            final(self).environment().granted() == released(
                old(self).environment().granted(),
                old(self)@,
                old(self)@.cpus.len() as int,
            ),
            final(self)@.cpus.len() == old(self)@.cpus.len(),
            forall|c: int|
                0 <= c < final(self)@.cpus.len() ==> (#[trigger] final(self)@.cpus[c]).slab is None
                    && final(self)@.cpus[c].head is None,
    {
        let ghost m0 = self@;
        let ghost g0 = self.env.granted();
        let count: usize = self.cpu_slabs.len();
        let mut cpu: usize = 0;
        proof {
            assert(cpu::relinked(m0.slabs, m0.slabs));
        }
        while cpu < count
            invariant
                cpu <= count,
                count == m0.cpus.len(),
                self@.cpus.len() == count,
                m0.ok(),
                m0.apart(),
                registered(old(self).env, m0),
                g0 == old(self).env.granted(),
                self@.pages == m0.pages,
                self.env.wf(),
                self.env.sound(),
                self.partial.first() is None,
                self.partial.count() == 0,
                cpu::relinked(m0.slabs, self@.slabs),
                list::links_known(self@.slabs),
                forall|d: int|
                    0 <= d < cpu ==> (#[trigger] self@.cpus[d]).slab is None && self@.cpus[d].head
                        is None,
                forall|d: int| cpu <= d < count ==> #[trigger] self@.cpus[d] == m0.cpus[d],
                self.env.granted() == released(g0, m0, cpu as int),
            decreases count - cpu,
        {
            proof {
                let c = cpu as int;
                assert(m0.state(c).ok());
                let mine = m0.cpus[c];
                assert(self@.cpus[c] == mine);
                assert(m0.places_differ(c, c));
                if mine.head is Some {
                    assert forall|d: int| 0 <= d < c implies !#[trigger] m0.is_placed_at(
                        d,
                        mine.head->0 as int,
                    ) by {
                        assert(m0.places_differ(c, d));
                        assert(m0.places_differ(d, c));
                    }
                    lemma_not_released(g0, m0, c, mine.head->0 as int);
                    assert(self@.slabs[mine.head->0 as int].page_start
                        == m0.slabs[mine.head->0 as int].page_start);
                }
                if mine.slab is Some {
                    assert forall|d: int| 0 <= d < c implies !#[trigger] m0.is_placed_at(
                        d,
                        mine.slab->0 as int,
                    ) by {
                        assert(m0.places_differ(c, d));
                    }
                    lemma_not_released(g0, m0, c, mine.slab->0 as int);
                    assert(self@.slabs[mine.slab->0 as int].page_start
                        == m0.slabs[mine.slab->0 as int].page_start);
                }
                if mine.head is Some && mine.slab is Some {
                    lemma_own_pages(m0, mine.head->0 as int, mine.slab->0 as int);
                }
            }
            let ghost m1 = self@;
            self.release_cpu(cpu);
            proof {
                lemma_relinked_twice(m0.slabs, m1.slabs, self@.slabs);
            }
            cpu = cpu + 1;
        }
        loop
            invariant
                m0 == old(self)@,
                g0 == old(self).env.granted(),
                self.partial.first() is None,
                self.env.wf(),
                self.env.sound(),
                self.env.granted() == released(g0, m0, count as int),
                count == m0.cpus.len(),
                self@.cpus.len() == count,
                list::links_known(self@.slabs),
                forall|c: int|
                    0 <= c < self@.cpus.len() ==> (#[trigger] self@.cpus[c]).slab is None
                        && self@.cpus[c].head is None,
            decreases 0int,
        {
            match self.partial.pop(&mut self.slabs) {
                Some(slab) => {
                    self.discard_slab(slab);
                },
                None => {
                    return;
                },
            }
        }
    }
}

/// Objects that had been handed out are still handed out later, so that they keep their bytes.
proof fn lemma_live_kept_on(
    mem1: Memory<'_>,
    mem2: Memory<'_>,
    m: model::CacheModel,
    n: model::CacheModel,
)
    requires
        stored::live_kept(mem1, mem2, n, 0),
        n.size == m.size,
        forall|x: int| #[trigger] n.is_live(x) == m.is_live(x),
    ensures
        stored::live_kept(mem1, mem2, m, 0),
{
    assert forall|x: int, b: int|
        #![trigger m.is_live(x), mem2.byte_at(b)]
        m.is_live(x) && x != 0 && x <= b < x + m.size implies mem2.byte_at(b) == mem1.byte_at(
        b,
    ) by {
        assert(n.is_live(x));
    }
}

/// Where the same objects are free, the same have been handed out.
proof fn lemma_same_live(m: model::CacheModel, n: model::CacheModel)
    requires
        model::same_objects(m, n),
    ensures
        forall|x: int| #[trigger] n.is_live(x) == m.is_live(x),
{
    assert forall|x: int| #[trigger] n.is_live(x) == m.is_live(x) by {
        assert(n.is_object(x) == m.is_object(x));
    }
}

/// The pages of a slab that has been added could be.
proof fn lemma_can_add(m: model::CacheModel, n: model::CacheModel, c: int)
    requires
        m.ok(),
        n.ok(),
        0 <= c < m.cpus.len(),
        m.state(c).needs_pages(),
        n == model::after_one(m, c, new_page(m, n)),
    ensures
        model::can_add(m, new_page(m, n)),
{
    let page = new_page(m, n);
    let st = m.state(c);
    assert(st.ok());
    model::lemma_drained_page_starts(st);
    model::lemma_drained_ok(m, c);
    let d = st.drained();
    let new = list::new_slab(page, m.pages, m.size);
    let g = cpu::CpuState { slabs: d.slabs.push(new), ..d };
    assert(m.with_state(c, d).state(c) == d);
    model::lemma_more_known(d, new);
    g.lemma_replaced(d.slabs.len() as usize);
    assert(n.slabs.len() == m.slabs.len() + 1);
    assert forall|s: int| 0 <= s < m.slabs.len() implies model::pages_apart(
        (#[trigger] m.slabs[s]).page_start,
        m.pages,
        page,
        m.pages,
    ) by {
        assert(d.slabs[s].page_start == m.slabs[s].page_start);
        assert(g.slabs[s].page_start == d.slabs[s].page_start);
        assert(n.slabs[s].page_start == g.slabs[s].page_start);
        assert(model::pages_apart(
            n.slabs[s].page_start,
            n.pages,
            n.slabs[m.slabs.len() as int].page_start,
            n.pages,
        ));
    }
}

/// The pages that are handed out once those of a slab have been given back.
pub open spec fn without_slab(
    granted: Map<int, nat>,
    slabs: Seq<list::SlabModel>,
    slab: Option<usize>,
) -> Map<int, nat> {
    match slab {
        Some(s) => granted.remove(slabs[s as int].page_start),
        None => granted,
    }
}

/// The pages that are handed out once the first `c` cpus have given those of their slabs back.
pub open spec fn released(
    granted: Map<int, nat>,
    m: model::CacheModel,
    c: int,
) -> Map<int, nat>
    decreases c,
{
    if c <= 0 {
        granted
    } else {
        let cpu = m.cpus[c - 1];
        without_slab(
            without_slab(released(granted, m, c - 1), m.slabs, cpu.head),
            m.slabs,
            cpu.slab,
        )
    }
}

/// Different slabs start at different pages.
proof fn lemma_own_pages(m: model::CacheModel, s: int, t: int)
    requires
        m.ok(),
        0 <= s < m.slabs.len(),
        0 <= t < m.slabs.len(),
        s != t,
    ensures
        m.slabs[s].page_start != m.slabs[t].page_start,
{
    assert(list::fits(m.slabs[s].page_start, m.pages, m.size));
    if s < t {
        assert(model::pages_apart(
            m.slabs[s].page_start,
            m.pages,
            m.slabs[t].page_start,
            m.pages,
        ));
    } else {
        assert(model::pages_apart(
            m.slabs[t].page_start,
            m.pages,
            m.slabs[s].page_start,
            m.pages,
        ));
    }
}

/// The pages of a slab that none of the first `c` cpus has are still handed out.
proof fn lemma_not_released(
    granted: Map<int, nat>,
    m: model::CacheModel,
    c: int,
    s: int,
)
    requires
        m.ok(),
        0 <= c <= m.cpus.len(),
        0 <= s < m.slabs.len(),
        forall|d: int| 0 <= d < c ==> !#[trigger] m.is_placed_at(d, s),
        granted.contains_key(m.slabs[s].page_start),
        granted[m.slabs[s].page_start] == m.pages,
    ensures
        released(granted, m, c).contains_key(m.slabs[s].page_start),
        released(granted, m, c)[m.slabs[s].page_start] == m.pages,
    decreases c,
{
    if c > 0 {
        lemma_not_released(granted, m, c - 1, s);
        let cpu = m.cpus[c - 1];
        assert(m.state(c - 1).ok());
        assert(!m.is_placed_at(c - 1, s));
        if cpu.head is Some {
            lemma_own_pages(m, s, cpu.head->0 as int);
        }
        if cpu.slab is Some {
            lemma_own_pages(m, s, cpu.slab->0 as int);
        }
    }
}

proof fn lemma_relinked_twice(
    a: Seq<list::SlabModel>,
    b: Seq<list::SlabModel>,
    c: Seq<list::SlabModel>,
)
    requires
        cpu::relinked(a, b),
        cpu::relinked(b, c),
    ensures
        cpu::relinked(a, c),
{
    assert forall|i: int| 0 <= i < a.len() implies #[trigger] c[i] == (list::SlabModel {
        prev: c[i].prev,
        next: c[i].next,
        ..a[i]
    }) by {
        assert(b[i].free == a[i].free);
    }
}

/// The pages stay noted where the slabs have the same pages.
proof fn lemma_still_registered<E: Env>(
    env: E,
    m: model::CacheModel,
    n: model::CacheModel,
)
    requires
        registered(env, m),
        n.slabs.len() == m.slabs.len(),
        n.pages == m.pages,
        forall|s: int|
            0 <= s < m.slabs.len() ==> (#[trigger] n.slabs[s]).page_start == m.slabs[s].page_start,
    ensures
        registered(env, n),
{
    assert forall|s: int| 0 <= s < n.slabs.len() implies env.granted().contains_key(
        (#[trigger] n.slabs[s]).page_start,
    ) && env.granted()[n.slabs[s].page_start] == n.pages by {
        assert(n.slabs[s].page_start == m.slabs[s].page_start);
    }
    assert forall|s: int, x: int|
        0 <= s < n.slabs.len() && #[trigger] model::in_pages(
            n.slabs[s].page_start,
            n.pages,
            x,
        ) implies env.slab_at(x) == Some(s as usize) by {
        assert(n.slabs[s].page_start == m.slabs[s].page_start);
        assert(model::in_pages(m.slabs[s].page_start, m.pages, x));
    }
}

/// The first page of the slab that is new in `after`.
pub open spec fn new_page(
    before: model::CacheModel,
    after: model::CacheModel,
) -> int {
    after.slabs[before.slabs.len() as int].page_start
}

/// An object has been allocated on cpu `c`: the one that is taken first once the cpu has been
/// served, from a new slab only where nothing else is left. No object that had been handed out
/// before is touched.
pub open spec fn allocated<E: Env>(
    before: MemCache<E>,
    after: MemCache<E>,
    c: int,
    object: usize,
) -> bool {
    let served = before@.state(c).served(
        new_page(before@, after@),
        before@.pages,
        before@.size,
    );
    &&& served.ready()
    &&& object == served.cpu.free.last()
    &&& after@ == before@.with_state(c, served.popped())
    &&& if before@.state(c).needs_pages() {
        before.grew(&after)
    } else {
        after.environment() == before.environment()
    }
    &&& !before@.is_live(object as int)
    &&& forall|x: int| #[trigger] after@.is_live(x) == (before@.is_live(x) || x == object)
    &&& before@.placed_once() ==> after@.placed_once()
}

/// The object has been given back on cpu `c`: to the cpu where its slab is the active one, else to
/// its slab.
pub open spec fn deallocated<E: Env>(
    before: MemCache<E>,
    after: MemCache<E>,
    c: int,
    object: usize,
) -> bool {
    let slab = before@.slab_of(object as int) as usize;
    &&& after@ == before@.with_state(c, before@.state(c).returned(slab, object))
    &&& after.environment() == before.environment()
    &&& forall|x: int| #[trigger] after@.is_live(x) == (before@.is_live(x) && x != object)
    &&& before@.placed_once() && before@.keeps_places(c, slab as int) ==> after@.placed_once()
}

/// An object that is allocated and given back at once on a cpu is the one that is allocated there
/// next, and the allocator is then as it was after the first call.
pub proof fn law_given_back_comes_first<E: Env>(
    new: MemCache<E>,
    first: MemCache<E>,
    back: MemCache<E>,
    second: MemCache<E>,
    c: int,
    o: usize,
    p: usize,
)
    requires
        new.wf(),
        first.wf(),
        0 <= c < new@.cpus.len(),
        allocated(new, first, c, o),
        deallocated(first, back, c, o),
        allocated(back, second, c, p),
    ensures
        p == o,
        second@ == first@,
        second.environment() == first.environment(),
{
    new.lemma_ok();
    first.lemma_ok();
    if new@.state(c).needs_pages() {
        lemma_can_add(new@, first@, c);
    }
    model::law_given_back_at_once(new@, c, new_page(new@, first@), new_page(back@, second@));
}

/// Releasing an allocator gives the pages back of each slab that is the active one of a cpu or the
/// first of its list, and no others.
pub proof fn law_release_gives_back_what_cpus_have(
    granted: Map<int, nat>,
    m: model::CacheModel,
    c: int,
    p: int,
)
    requires
        0 <= c <= m.cpus.len(),
    ensures
        released(granted, m, c).contains_key(p) <==> granted.contains_key(p) && forall|d: int|
            0 <= d < c ==> {
                &&& (#[trigger] m.cpus[d]).slab matches Some(s) ==> m.slabs[s as int].page_start != p
                &&& m.cpus[d].head matches Some(h) ==> m.slabs[h as int].page_start != p
            },
        released(granted, m, c).contains_key(p) ==> released(granted, m, c)[p] == granted[p],
    decreases c,
{
    if c > 0 {
        law_release_gives_back_what_cpus_have(granted, m, c - 1, p);
        let cpu = m.cpus[c - 1];
        assert(released(granted, m, c).contains_key(p) <==> released(
            granted,
            m,
            c - 1,
        ).contains_key(p) && (cpu.slab matches Some(s) ==> m.slabs[s as int].page_start != p) && (
        cpu.head matches Some(h) ==> m.slabs[h as int].page_start != p));
    }
}

/// What an object is that has been allocated: the last that is free in the cpu; where there is none,
/// in its active slab; where there is none either, in the first slab of its list; and else the first
/// of a new slab, which starts with its pages. Only for the latter are pages asked for.
pub proof fn law_allocated_object<E: Env>(
    before: MemCache<E>,
    after: MemCache<E>,
    c: int,
    object: usize,
)
    requires
        before.wf(),
        after.wf(),
        0 <= c < before@.cpus.len(),
        allocated(before, after, c, object),
    ensures
        ({
            let m = before@;
            let cpu = m.cpus[c];
            let active = if cpu.slab is Some {
                m.slabs[cpu.slab->0 as int].free
            } else {
                Seq::<usize>::empty()
            };
            let listed = if cpu.head is Some {
                m.slabs[cpu.head->0 as int].free
            } else {
                Seq::<usize>::empty()
            };
            let now = after@.cpus[c].free;
            if cpu.free.len() > 0 {
                object == cpu.free.last() && now == cpu.free.drop_last()
            } else if active.len() > 0 {
                object == active.last() && now == active.drop_last()
            } else if listed.len() > 0 {
                object == listed.last() && now == listed.drop_last() && after@.cpus[c].slab
                    == cpu.head
            } else {
                &&& after@.slabs.len() == m.slabs.len() + 1
                &&& object == after@.slabs[m.slabs.len() as int].page_start
                &&& after@.cpus[c].slab == Some(m.slabs.len() as usize)
                &&& after.environment().granted() == before.environment().granted().insert(
                    object as int,
                    m.pages,
                )
            }
        }),
        (before@.cpus[c].free.len() > 0 || (before@.cpus[c].slab is Some
            && before@.slabs[before@.cpus[c].slab->0 as int].free.len() > 0) || (
        before@.cpus[c].head is Some && before@.slabs[before@.cpus[c].head->0 as int].free.len()
            > 0)) ==> after.environment() == before.environment() && after@.slabs.len()
            == before@.slabs.len(),
{
    before.lemma_ok();
    let m = before@;
    let p = new_page(before@, after@);
    model::law_pages_are_needed(m, c);
    if m.state(c).needs_pages() {
        lemma_can_add(m, after@, c);
        model::law_new_slab_becomes_active(m, c, p);
    } else {
        model::law_cpu_takes_from_itself_and_its_slab(m, c, p);
        if m.cpus[c].free.len() == 0 && !(m.cpus[c].slab is Some
            && m.slabs[m.cpus[c].slab->0 as int].free.len() > 0) {
            model::law_first_listed_slab_becomes_active(m, c, p, m.cpus[c].head->0);
        }
    }
}

/// Where an object is that has been given back: the first to be taken again in the cpu where its
/// slab is the active one, else the first in its slab. If all of its objects were in use and it is
/// no active slab, the slab is then the first of the list of the cpu.
pub proof fn law_object_given_back<E: Env>(
    before: MemCache<E>,
    after: MemCache<E>,
    c: int,
    object: usize,
    slab: usize,
)
    requires
        before.wf(),
        0 <= c < before@.cpus.len(),
        slab < before@.slabs.len(),
        before@.is_slot(slab as int, object as int),
        deallocated(before, after, c, object),
    ensures
        ({
            let m = before@;
            let s = m.slabs[slab as int];
            if m.cpus[c].slab == Some(slab) {
                &&& after@.cpus[c].free == m.cpus[c].free.push(object)
                &&& after@.slabs == m.slabs
            } else {
                &&& after@.cpus[c].free == m.cpus[c].free
                &&& after@.slabs[slab as int].free == s.free.push(object)
                &&& if !s.frozen && s.objects == s.inuse {
                    after@.cpus[c].head == Some(slab)
                } else {
                    after@.cpus[c] == m.cpus[c]
                }
            }
        }),
{
    before.lemma_ok();
    model::lemma_slab_of(before@, slab as int, object as int);
    model::law_where_objects_go(before@, c, slab, object);
}

} // verus!
