//! A slab allocator for objects of one size.

use crate::bits;
use vstd::arithmetic::power2::*;
use vstd::prelude::*;

pub mod atomic;
pub mod cache;
pub mod cpu;
pub mod flags;
pub mod list;
pub mod model;
pub mod objects;
pub mod stored;
pub mod std_impl;
pub mod tid;

verus! {

pub const PAGE_SIZE: usize = 4096;

/// Where pages come from, and which cpu runs.
pub trait Env {
    type PreemptGuard;

    /// What holds of each state.
    spec fn wf(&self) -> bool;

    /// The pages that have been handed out: for the first page of each run, their number.
    spec fn granted(&self) -> Map<int, nat>;

    /// The slab that is noted for the page with the byte at `x`.
    spec fn slab_at(&self, x: int) -> Option<usize>;

    /// All pages lie from here on.
    spec fn low(&self) -> int;

    /// All pages lie before this address.
    spec fn high(&self) -> int;

    /// No page that has been handed out will be handed out again before it comes back.
    spec fn sound(&self) -> bool;

    /// There is a run of as many pages.
    spec fn has_room(&self, pages: nat) -> bool;

    /// The cpu that runs.
    spec fn current_cpu(&self) -> nat;

    /// Hands out pages that have not been handed out. Returns the address of the first.
    fn allocate_pages(&mut self, pages: usize) -> (r: usize)
        requires
            old(self).wf(),
            old(self).sound(),
            pages > 0,
            old(self).has_room(pages as nat),
        ensures
            final(self).wf(),
            final(self).sound(),
            r > 0,
            r as int % (PAGE_SIZE as int) == 0,
            r + PAGE_SIZE * pages <= usize::MAX,
            old(self).low() <= r,
            r + PAGE_SIZE * pages <= old(self).high(),
            !old(self).granted().contains_key(r as int),
            forall|p: int| #[trigger]
                old(self).granted().contains_key(p) ==> model::pages_apart(
                    p,
                    old(self).granted()[p],
                    r as int,
                    pages as nat,
                ),
            final(self).granted() == old(self).granted().insert(r as int, pages as nat),
            forall|x: int| #[trigger] final(self).slab_at(x) == old(self).slab_at(x),
            final(self).current_cpu() == old(self).current_cpu(),
            final(self).low() == old(self).low(),
            final(self).high() == old(self).high(),
    ;

    /// Takes pages back that have been handed out.
    fn deallocate_pages(&mut self, page_start: usize, pages: usize)
        requires
            old(self).wf(),
            old(self).granted().contains_key(page_start as int),
            old(self).granted()[page_start as int] == pages,
        ensures
            final(self).wf(),
            old(self).sound() ==> final(self).sound(),
            final(self).granted() == old(self).granted().remove(page_start as int),
            forall|x: int|
                !model::in_pages(page_start as int, pages as nat, x)
                    ==> #[trigger] final(self).slab_at(x) == old(self).slab_at(x),
            final(self).current_cpu() == old(self).current_cpu(),
            final(self).low() == old(self).low(),
            final(self).high() == old(self).high(),
    ;

    /// Notes the slab of pages that have been handed out.
    fn set_pages_slab(&mut self, page_start: usize, pages: usize, slab: usize)
        requires
            old(self).wf(),
            old(self).granted().contains_key(page_start as int),
            old(self).granted()[page_start as int] == pages,
        ensures
            final(self).wf(),
            final(self).sound() == old(self).sound(),
            final(self).granted() == old(self).granted(),
            forall|x: int| #[trigger]
                final(self).slab_at(x) == (if model::in_pages(
                    page_start as int,
                    pages as nat,
                    x,
                ) {
                    Some(slab)
                } else {
                    old(self).slab_at(x)
                }),
            final(self).current_cpu() == old(self).current_cpu(),
            final(self).low() == old(self).low(),
            final(self).high() == old(self).high(),
    ;

    /// The slab that is noted for a page.
    fn find_slab_by_page(&self, page_start: usize) -> (r: usize)
        requires
            self.wf(),
            self.slab_at(page_start as int) is Some,
        ensures
            Some(r) == self.slab_at(page_start as int),
    ;

    fn cpu_id(&self) -> (r: usize)
        requires
            self.wf(),
        ensures
            r == self.current_cpu(),
    ;

    #[must_use]
    fn preempt_disable(&self) -> Self::PreemptGuard;
}

/// `x` is a multiple of `align`.
pub open spec fn is_aligned(x: int, align: usize) -> bool {
    x % (align as int) == 0
}

/// Align address downwards.
///
/// Returns the greatest x with alignment `align` so that x <= addr. The alignment must be
///  a power of 2.
pub fn align_down(addr: usize, align: usize) -> (r: usize)
    requires
        exists|k: nat| align == #[trigger] pow2(k),
    ensures
        r == addr - addr % align,
        is_aligned(r as int, align),
        forall|x: int| #[trigger] is_aligned(x, align) && x <= addr ==> x <= r,
{
    proof {
        let k = choose|k: nat| align == #[trigger] pow2(k);
        lemma_align_down(addr, align, k);
    }
    addr & !((align - 1) as usize)
}

proof fn lemma_align_down(addr: usize, align: usize, k: nat)
    requires
        align == pow2(k),
    ensures
        align > 0,
        (addr & !((align - 1) as usize)) == addr - addr % align,
        is_aligned(addr - addr % align, align),
        forall|x: int| #[trigger]
            is_aligned(x, align) && x <= addr ==> x <= addr - addr % align,
{
    lemma_pow2_pos(k);
    lemma2_to64();
    lemma2_to64_rest();
    if k >= usize::BITS {
        bits::lemma_pow2_mono(usize::BITS as nat, k);
    }
    let low: usize = (align - 1) as usize;
    assert(vstd::bits::low_bits_mask(k) == pow2(k) - 1);
    vstd::bits::lemma_usize_low_bits_mask_is_mod(addr, k);
    assert((addr & !low) == addr - (addr & low)) by (bit_vector);
    let a = align as int;
    let q = addr as int / a;
    vstd::arithmetic::div_mod::lemma_fundamental_div_mod(addr as int, a);
    vstd::arithmetic::div_mod::lemma_mod_multiples_basic(q, a);
    assert(addr - addr % align == q * a) by (nonlinear_arith)
        requires
            addr as int == a * q + addr as int % a,
            a == align,
    ;
    assert forall|x: int| #[trigger] is_aligned(x, align) && x <= addr implies x <= addr - addr
        % align by {
        vstd::arithmetic::div_mod::lemma_fundamental_div_mod(x, a);
        vstd::arithmetic::div_mod::lemma_div_is_ordered(x, addr as int, a);
        assert(x <= q * a) by (nonlinear_arith)
            requires
                x == a * (x / a),
                x / a <= q,
                a > 0,
        ;
    }
}

} // verus!
