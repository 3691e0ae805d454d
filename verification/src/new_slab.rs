//! A slab allocator whose sizes are fixed when it is compiled.

use crate::slab::list::SlabList;
use crate::slab::objects::FreeList;
use vstd::prelude::*;

verus! {

pub const PAGE_SIZE: usize = 4096;

/// Where pages come from, and which cpu runs.
pub trait Env {
    type PreemptGuard;

    /// What holds of each state.
    spec fn ok(&self) -> bool;

    /// The runs of pages that have been handed out: for the first page of each, their number.
    spec fn runs(&self) -> Map<int, nat>;

    /// Pages can be handed out.
    spec fn can_allocate(&self, count: nat) -> bool;

    /// The cpu that runs.
    spec fn running(&self) -> nat;

    #[must_use]
    fn preempt_disable(&self) -> Self::PreemptGuard;

    /// Hands out pages that have not been handed out. Returns the address of the first.
    fn allocate_pages(&mut self, count: usize) -> (r: usize)
        requires
            old(self).ok(),
            count > 0,
            old(self).can_allocate(count as nat),
        ensures
            final(self).ok(),
            r > 0,
            !old(self).runs().contains_key(r as int),
            final(self).runs() == old(self).runs().insert(r as int, count as nat),
            final(self).running() == old(self).running(),
    ;

    /// Takes pages back that have been handed out.
    fn deallocate_pages(&mut self, start_page: usize, count: usize)
        requires
            old(self).ok(),
            old(self).runs().contains_key(start_page as int),
            old(self).runs()[start_page as int] == count,
        ensures
            final(self).ok(),
            final(self).runs() == old(self).runs().remove(start_page as int),
            final(self).running() == old(self).running(),
    ;

    fn cpu_id(&self) -> (r: usize)
        requires
            self.ok(),
        ensures
            r == self.running(),
    ;
}

/// What a cpu keeps for itself.
pub struct SlabAllocPerCpu {
    freelist: FreeList,
    slab: Option<usize>,
    partials: SlabList,
}

impl SlabAllocPerCpu {
    /// The cpu has neither free objects nor slabs.
    pub closed spec fn is_empty(&self) -> bool {
        self.freelist@.len() == 0 && self.slab is None && self.partials.first() is None
    }

    pub fn new() -> (r: Self)
        ensures
            r.is_empty(),
    {
        SlabAllocPerCpu { freelist: FreeList::new(), slab: None, partials: SlabList::new() }
    }
}

/// An allocator for objects of `OBJECT_SIZE` bytes.
pub struct SlabAlloc<
    E: Env,
    const OBJECT_SIZE: usize,
    const PAGES_PER_SLAB: usize,
    const MAX_PARTIALS: usize,
    const MAX_PARTIALS_PER_CPU: usize,
    const CPU_COUNT: usize,
> {
    cpu_slabs: Vec<SlabAllocPerCpu>,
    partials: SlabList,
    env: E,
}

impl<
    E: Env,
    const OBJECT_SIZE: usize,
    const PAGES_PER_SLAB: usize,
    const MAX_PARTIALS: usize,
    const MAX_PARTIALS_PER_CPU: usize,
    const CPU_COUNT: usize,
> SlabAlloc<E, OBJECT_SIZE, PAGES_PER_SLAB, MAX_PARTIALS, MAX_PARTIALS_PER_CPU, CPU_COUNT> {
    /// Where pages come from.
    pub closed spec fn environment(&self) -> E {
        self.env
    }

    /// What the cpus keep.
    pub closed spec fn cpus(&self) -> Seq<SlabAllocPerCpu> {
        self.cpu_slabs@
    }

    /// The slabs that all cpus share.
    pub closed spec fn shared(&self) -> SlabList {
        self.partials
    }

    /// An allocator without slabs.
    pub fn new(env: E) -> (r: Self)
        ensures
            r.environment() == env,
            r.cpus().len() == CPU_COUNT,
            forall|c: int| 0 <= c < CPU_COUNT ==> (#[trigger] r.cpus()[c]).is_empty(),
            r.shared().first() is None,
            r.shared().count() == 0,
    {
        let mut cpu_slabs: Vec<SlabAllocPerCpu> = Vec::new();
        while cpu_slabs.len() < CPU_COUNT
            invariant
                cpu_slabs@.len() <= CPU_COUNT,
                forall|c: int|
                    0 <= c < cpu_slabs@.len() ==> (#[trigger] cpu_slabs@[c]).is_empty(),
            decreases CPU_COUNT - cpu_slabs@.len(),
        {
            cpu_slabs.push(SlabAllocPerCpu::new());
        }
        SlabAlloc { cpu_slabs, partials: SlabList::new(), env }
    }

    /// Makes a new slab, which starts at its first page.
    pub fn new_slab(&mut self) -> (r: usize)
        requires
            old(self).environment().ok(),
            PAGES_PER_SLAB > 0,
            old(self).environment().can_allocate(PAGES_PER_SLAB as nat),
        ensures
            final(self).environment().ok(),
            r > 0,
            !old(self).environment().runs().contains_key(r as int),
            final(self).environment().runs() == old(self).environment().runs().insert(
                r as int,
                PAGES_PER_SLAB as nat,
            ),
            final(self).cpus() == old(self).cpus(),
            final(self).shared() == old(self).shared(),
    {
        self.env.allocate_pages(PAGES_PER_SLAB)
    }
}

} // verus!
