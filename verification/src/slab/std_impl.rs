//! An environment for threads: pages of one chunk of memory, and four cpus that threads share.

use crate::bits;
use crate::frame::buddy_system::{self, FrameAlloc};
use crate::slab::model;
use crate::slab::tid::Tid;
use crate::slab::{Env, PAGE_SIZE};
use vstd::arithmetic::power2::pow2;
use vstd::prelude::*;

verus! {

/// The number of frames that runs of pages take.
pub open spec fn frames_of(granted: Map<int, nat>) -> nat
    decreases granted.dom().len(),
    when granted.dom().finite()
{
    if granted.dom().len() == 0 {
        0
    } else {
        let p = granted.dom().choose();
        bits::next_pow2(granted[p]) + frames_of(granted.remove(p))
    }
}

/// A run that is taken out takes its frames with it.
proof fn lemma_frames_without(granted: Map<int, nat>, p: int)
    requires
        granted.dom().finite(),
        granted.contains_key(p),
    ensures
        frames_of(granted) == bits::next_pow2(granted[p]) + frames_of(granted.remove(p)),
    decreases granted.dom().len(),
{
    let q = granted.dom().choose();
    assert(granted.dom().contains(q));
    if p != q {
        let less = granted.remove(q);
        assert(less.contains_key(p));
        lemma_frames_without(less, p);
        let other = granted.remove(p);
        assert(other.contains_key(q));
        lemma_frames_without(other, q);
        assert(less.remove(p) =~= other.remove(q));
    }
}

/// Pages of one chunk of memory.
pub struct StdEnv {
    chunk: usize,
    page_alloc: FrameAlloc,
    pages: Vec<Option<usize>>,
    current: Tid,
    granted: Ghost<Map<int, nat>>,
}

impl StdEnv {
    /// The address of the first page.
    pub closed spec fn first_page(&self) -> int {
        self.chunk as int
    }

    /// The number of pages.
    pub closed spec fn count(&self) -> int {
        self.pages@.len() as int
    }

    /// The free pages.
    pub closed spec fn lists(&self) -> buddy_system::Lists {
        self.page_alloc@
    }

    /// The frames that are allocated.
    pub closed spec fn allocated(&self) -> nat {
        self.page_alloc.allocated_frames()
    }

    /// The frame of the page at address `p`.
    pub open spec fn frame(&self, p: int) -> int {
        (p - self.first_page()) / (PAGE_SIZE as int)
    }

    /// The run of pages at address `p` lies in the chunk.
    pub open spec fn in_chunk(&self, p: int, pages: nat) -> bool {
        &&& self.first_page() <= p
        &&& p == self.first_page() + PAGE_SIZE * self.frame(p)
        &&& self.frame(p) + bits::next_pow2(pages) <= self.count()
    }

    /// The run of pages at address `p` has been handed out: none of its frames is free.
    pub open spec fn is_taken(&self, p: int, pages: nat) -> bool {
        forall|x: int|
            self.frame(p) <= x < self.frame(p) + bits::next_pow2(pages)
                ==> !#[trigger] buddy_system::is_free(self.lists(), x)
    }

    /// The runs of pages at `p` and at `q` have no frame in common.
    pub open spec fn frames_apart(&self, p: int, m: nat, q: int, n: nat) -> bool {
        ||| self.frame(p) + bits::next_pow2(m) <= self.frame(q)
        ||| self.frame(q) + bits::next_pow2(n) <= self.frame(p)
    }

    /// An environment with the `pages_count` pages from address `chunk` on, used by the thread
    /// `current`.
    pub fn new(chunk: usize, pages_count: usize, current: Tid) -> (r: Self)
        requires
            chunk > 0,
            chunk as int % (PAGE_SIZE as int) == 0,
            chunk + PAGE_SIZE * pages_count <= usize::MAX,
            pages_count < 0x1_0000_0000,
        ensures
            r.wf(),
            r.sound(),
            r.granted() == Map::<int, nat>::empty(),
            r.first_page() == chunk,
            r.count() == pages_count,
            forall|x: int| #[trigger] r.slab_at(x) is None,
            forall|f: int|
                0 <= f < pages_count ==> #[trigger] buddy_system::is_free(
                    r.lists(),
                    f,
                ),
            r.current_cpu() == current.id() as nat % 4,
    {
        let mut page_alloc = FrameAlloc::new();
        let ghost empty = page_alloc@;
        proof {
            buddy_system::lemma_pieces_fit(0, pages_count as nat);
            buddy_system::law_added_stay_within(empty, 0, pages_count as nat);
            buddy_system::law_added_stay_disjoint(empty, 0, pages_count as nat);
        }
        page_alloc.insert(0..pages_count);
        let mut pages: Vec<Option<usize>> = Vec::new();
        while pages.len() < pages_count
            invariant
                pages@.len() <= pages_count,
                forall|i: int| 0 <= i < pages@.len() ==> #[trigger] pages@[i] is None,
            decreases pages_count - pages@.len(),
        {
            pages.push(None);
        }
        let r = StdEnv { chunk, page_alloc, pages, current, granted: Ghost(Map::empty()) };
        proof {
            assert forall|f: int| 0 <= f < pages_count implies #[trigger] buddy_system::is_free(
                r.lists(),
                f,
            ) by {
                buddy_system::law_added_are_free(empty, 0, pages_count as nat, f);
            }
        }
        r
    }

    /// The cpu of a thread.
    pub fn cpu_of(tid: Tid) -> (r: usize)
        ensures
            r == tid.id() as nat % 4,
    {
        tid.as_usize() % 4
    }

    /// Makes `tid` the thread that uses the environment.
    pub fn set_current(&mut self, tid: Tid)
        requires
            old(self).wf(),
        ensures
            final(self).wf(),
            final(self).sound() == old(self).sound(),
            final(self).granted() == old(self).granted(),
            forall|x: int| #[trigger] final(self).slab_at(x) == old(self).slab_at(x),
            forall|n: nat| #[trigger] final(self).has_room(n) == old(self).has_room(n),
            final(self).low() == old(self).low(),
            final(self).high() == old(self).high(),
            final(self).current_cpu() == tid.id() as nat % 4,
    {
        let ghost before = *self;
        self.current = tid;
        proof {
            lemma_same_soundness(before, *self);
        }
    }

    /// Whether there is a run of as many pages.
    pub fn has_pages(&self, pages: usize) -> (r: bool)
        requires
            self.wf(),
        ensures
            r == self.has_room(pages as nat),
            r <==> self.allocated() + bits::next_pow2(pages as nat) <= usize::MAX && exists|
                k: int,
                b: usize,
            |
                0 <= k < 32 && #[trigger] self.lists()[k].contains(b) && pages <= pow2(k as nat),
    {
        self.page_alloc.has_room(pages)
    }

    fn page_addr_to_index(&self, page: usize) -> (r: usize)
        requires
            page >= self.first_page(),
        ensures
            r == self.frame(page as int),
    {
        (page - self.chunk) / PAGE_SIZE
    }
}

impl Env for StdEnv {
    type PreemptGuard = ();

    closed spec fn wf(&self) -> bool {
        &&& self.page_alloc.wf()
        &&& 0 < self.chunk
        &&& self.chunk as int % (PAGE_SIZE as int) == 0
        &&& self.chunk + PAGE_SIZE * self.pages@.len() <= usize::MAX
        &&& self.count() < 0x1_0000_0000
        &&& buddy_system::within(self.lists(), self.count())
        &&& self.granted@.dom().finite()
        &&& forall|p: int| #[trigger]
            self.granted@.contains_key(p) ==> self.granted@[p] > 0 && self.in_chunk(
                p,
                self.granted@[p],
            )
        &&& self.allocated() == frames_of(self.granted@)
    }

    closed spec fn granted(&self) -> Map<int, nat> {
        self.granted@
    }

    closed spec fn slab_at(&self, x: int) -> Option<usize> {
        if self.first_page() <= x && self.frame(x) < self.count() {
            self.pages@[self.frame(x)]
        } else {
            None
        }
    }

    open spec fn low(&self) -> int {
        self.first_page()
    }

    open spec fn high(&self) -> int {
        self.first_page() + PAGE_SIZE * self.count()
    }

    closed spec fn sound(&self) -> bool {
        &&& buddy_system::disjoint(self.lists())
        &&& forall|p: int| #[trigger]
            self.granted@.contains_key(p) ==> self.is_taken(p, self.granted@[p])
        &&& forall|p: int, q: int|
            #![trigger self.granted@.contains_key(p), self.granted@.contains_key(q)]
            self.granted@.contains_key(p) && self.granted@.contains_key(q) && p != q
                ==> self.frames_apart(p, self.granted@[p], q, self.granted@[q])
    }

    open spec fn has_room(&self, pages: nat) -> bool {
        buddy_system::has_room(self.lists(), self.allocated(), pages)
    }

    closed spec fn current_cpu(&self) -> nat {
        self.current.id() as nat % 4
    }

    fn allocate_pages(&mut self, pages: usize) -> (r: usize)
        ensures
            r == old(self).first_page() + PAGE_SIZE * buddy_system::split_off(
                old(self).lists(),
                bits::ceil_log2(pages as nat) as int,
            ),
            final(self).lists() == buddy_system::without(
                old(self).lists(),
                bits::ceil_log2(pages as nat) as int,
            ),
            forall|x: int| #[trigger]
                buddy_system::is_free(final(self).lists(), x) == (buddy_system::is_free(
                    old(self).lists(),
                    x,
                ) && !(old(self).frame(r as int) <= x < old(self).frame(r as int) + bits::next_pow2(
                    pages as nat,
                ))),
    {
        let ghost c = bits::ceil_log2(pages as nat) as int;
        let ghost lists = self.lists();
        let ghost before = *self;
        proof {
            bits::lemma_next_pow2(pages as nat);
            buddy_system::law_allocated_stay_within(lists, c, self.count());
            buddy_system::law_allocated_are_taken(lists, c);
        }
        let index: usize = match self.page_alloc.allocate(pages) {
            Some(index) => index,
            None => {
                return self.chunk;
            },
        };
        proof {
            let n = self.pages@.len() as int;
            let size = bits::next_pow2(pages as nat);
            assert(PAGE_SIZE * index + PAGE_SIZE * pages <= PAGE_SIZE * n);
        }
        let ptr: usize = self.chunk + index * PAGE_SIZE;
        proof {
            let p = ptr as int;
            let g0 = self.granted@;
            assert(self.frame(p) == index);
            lemma_handed_out(before, *self, p, pages as nat);
            self.granted@ = g0.insert(p, pages as nat);
            lemma_frames_without(self.granted@, p);
            assert(self.granted@.remove(p) =~= g0);
            assert(self.in_chunk(p, pages as nat));
            assert forall|q: int| #[trigger] self.granted@.contains_key(q) implies self.granted@[q]
                > 0 && self.in_chunk(q, self.granted@[q]) by {
                if q != p {
                    assert(g0.contains_key(q));
                    assert(before.in_chunk(q, g0[q]));
                }
            }
            assert forall|q: int| #[trigger] self.granted@.contains_key(q) implies self.is_taken(
                q,
                self.granted@[q],
            ) by {
                if q != p {
                    assert(g0.contains_key(q));
                    assert(before.is_taken(q, g0[q]));
                }
            }
            assert forall|q: int, s: int|
                #![trigger self.granted@.contains_key(q), self.granted@.contains_key(s)]
                self.granted@.contains_key(q) && self.granted@.contains_key(s) && q
                    != s implies self.frames_apart(q, self.granted@[q], s, self.granted@[s]) by {
                if q != p {
                    assert(g0.contains_key(q));
                }
                if s != p {
                    assert(g0.contains_key(s));
                }
                if q != p && s != p {
                    assert(before.frames_apart(q, g0[q], s, g0[s]));
                }
            }
        }
        ptr
    }

    fn deallocate_pages(&mut self, page_start: usize, pages: usize)
        ensures
            final(self).lists() == buddy_system::put_back(
                old(self).lists(),
                old(self).frame(page_start as int),
                bits::ceil_log2(pages as nat) as int,
            ),
            forall|x: int| #[trigger]
                buddy_system::is_free(final(self).lists(), x) == (buddy_system::is_free(
                    old(self).lists(),
                    x,
                ) || old(self).frame(page_start as int) <= x < old(self).frame(page_start as int)
                    + bits::next_pow2(pages as nat)),
            forall|x: int| #[trigger]
                final(self).slab_at(x) == (if old(self).frame(page_start as int)
                    <= old(self).frame(x) < pages {
                    None
                } else {
                    old(self).slab_at(x)
                }),
    {
        let ghost p = page_start as int;
        let ghost g0 = self.granted@;
        let ghost before = *self;
        let ghost c = bits::ceil_log2(pages as nat) as int;
        proof {
            assert(self.in_chunk(p, g0[p]));
            bits::lemma_next_pow2(pages as nat);
            lemma_frames_without(g0, p);
        }
        let index: usize = self.page_addr_to_index(page_start);
        proof {
            buddy_system::law_put_back_stay_within(
                self.lists(),
                index,
                c,
                self.count(),
            );
        }
        self.page_alloc.dealloc(index, pages);
        proof {
            self.granted@ = g0.remove(p);
        }
        let ghost lists = self.lists();
        let mut i: usize = index;
        while i < pages
            invariant
                index <= i,
                i <= index || i <= pages,
                index + pages <= self.pages@.len() <= usize::MAX,
                self.pages@.len() == before.pages@.len(),
                self.chunk == before.chunk,
                self.granted@ == g0.remove(p),
                self.current == before.current,
                self.lists() == lists,
                self.allocated() == before.allocated() - bits::next_pow2(pages as nat),
                forall|j: int|
                    0 <= j < self.pages@.len() ==> #[trigger] self.pages@[j] == (if index <= j < i {
                        None
                    } else {
                        before.pages@[j]
                    }),
            decreases pages - i,
        {
            self.pages.set(i, None);
            i = i + 1;
        }
        proof {
            assert forall|q: int| #[trigger] self.granted@.contains_key(q) implies self.granted@[q]
                > 0 && self.in_chunk(q, self.granted@[q]) by {
                assert(before.in_chunk(q, g0[q]));
            }
            assert forall|x: int| #[trigger] self.slab_at(x) == (if before.frame(p)
                <= before.frame(x) < pages {
                None
            } else {
                before.slab_at(x)
            }) by {
                assert(self.frame(x) == before.frame(x));
            }
            assert forall|x: int| !model::in_pages(p, pages as nat, x) implies #[trigger]
                self.slab_at(x) == before.slab_at(x) by {
                assert(model::in_pages(p, pages as nat, x) == (index <= self.frame(x)
                    < index + pages));
            }
            if before.sound() {
                assert forall|x: int| buddy_system::in_block(index as int, c, x) implies
                    !#[trigger] buddy_system::is_free(before.lists(), x) by {
                    assert(before.is_taken(p, g0[p]));
                }
                buddy_system::law_put_back_stay_disjoint(before.lists(), index, c);
                assert forall|q: int| #[trigger] self.granted@.contains_key(q) implies
                    self.is_taken(q, self.granted@[q]) by {
                    assert(g0.contains_key(q));
                    assert(before.is_taken(q, g0[q]));
                    assert(before.frames_apart(p, g0[p], q, g0[q]));
                    assert forall|x: int|
                        self.frame(q) <= x < self.frame(q) + bits::next_pow2(
                            self.granted@[q],
                        ) implies !#[trigger] buddy_system::is_free(self.lists(), x) by {
                        buddy_system::law_put_back_are_free(before.lists(), index, c, x);
                        assert(!buddy_system::is_free(before.lists(), x));
                    }
                }
                assert forall|q: int, s: int|
                    #![trigger self.granted@.contains_key(q), self.granted@.contains_key(s)]
                    self.granted@.contains_key(q) && self.granted@.contains_key(s) && q
                        != s implies self.frames_apart(q, self.granted@[q], s, self.granted@[s]) by {
                    assert(before.frames_apart(q, g0[q], s, g0[s]));
                }
            }
        }
    }

    fn set_pages_slab(&mut self, page_start: usize, pages: usize, slab: usize)
        ensures
            final(self).lists() == old(self).lists(),
            final(self).allocated() == old(self).allocated(),
    {
        let ghost p = page_start as int;
        let ghost before = *self;
        proof {
            assert(self.in_chunk(p, self.granted@[p]));
            bits::lemma_next_pow2(pages as nat);
        }
        let index: usize = self.page_addr_to_index(page_start);
        let mut i: usize = index;
        while i < index + pages
            invariant
                index <= i <= index + pages,
                index + pages <= self.pages@.len() <= usize::MAX,
                self.pages@.len() == before.pages@.len(),
                self.chunk == before.chunk,
                self.granted == before.granted,
                self.current == before.current,
                self.page_alloc == before.page_alloc,
                forall|j: int|
                    0 <= j < self.pages@.len() ==> #[trigger] self.pages@[j] == (if index <= j < i {
                        Some(slab)
                    } else {
                        before.pages@[j]
                    }),
            decreases index + pages - i,
        {
            self.pages.set(i, Some(slab));
            i = i + 1;
        }
        proof {
            assert forall|q: int| #[trigger] self.granted@.contains_key(q) implies self.granted@[q]
                > 0 && self.in_chunk(q, self.granted@[q]) by {
                assert(before.in_chunk(q, before.granted@[q]));
            }
            lemma_same_soundness(before, *self);
            assert forall|x: int| #[trigger] self.slab_at(x) == (if model::in_pages(
                p,
                pages as nat,
                x,
            ) {
                Some(slab)
            } else {
                before.slab_at(x)
            }) by {
                assert(self.frame(x) == before.frame(x));
                assert(model::in_pages(p, pages as nat, x) == (index <= self.frame(x)
                    < index + pages));
            }
        }
    }

    fn find_slab_by_page(&self, page_start: usize) -> (r: usize) {
        let index: usize = self.page_addr_to_index(page_start);
        match self.pages[index] {
            Some(slab) => slab,
            None => 0,
        }
    }

    fn cpu_id(&self) -> (r: usize) {
        StdEnv::cpu_of(self.current)
    }

    fn preempt_disable(&self) -> Self::PreemptGuard {
    }
}

impl crate::new_slab::Env for StdEnv {
    type PreemptGuard = ();

    open spec fn ok(&self) -> bool {
        self.wf()
    }

    open spec fn runs(&self) -> Map<int, nat> {
        self.granted()
    }

    open spec fn can_allocate(&self, count: nat) -> bool {
        self.sound() && self.has_room(count)
    }

    open spec fn running(&self) -> nat {
        self.current_cpu()
    }

    fn preempt_disable(&self) -> Self::PreemptGuard {
    }

    fn allocate_pages(&mut self, count: usize) -> (r: usize) {
        Env::allocate_pages(self, count)
    }

    fn deallocate_pages(&mut self, start_page: usize, count: usize) {
        Env::deallocate_pages(self, start_page, count)
    }

    fn cpu_id(&self) -> (r: usize) {
        Env::cpu_id(self)
    }
}

/// What is handed out stays sound where the same pages are free and handed out.
proof fn lemma_same_soundness(a: StdEnv, b: StdEnv)
    requires
        a.lists() == b.lists(),
        a.first_page() == b.first_page(),
        a.granted() == b.granted(),
    ensures
        a.sound() == b.sound(),
{
    assert forall|p: int, n: nat| #[trigger] a.is_taken(p, n) == b.is_taken(p, n) by {
        assert(a.frame(p) == b.frame(p));
        if a.is_taken(p, n) {
            assert(b.is_taken(p, n));
        }
        if b.is_taken(p, n) {
            assert(a.is_taken(p, n));
        }
    }
    assert forall|p: int, n: nat| #[trigger] b.is_taken(p, n) == a.is_taken(p, n) by {
        assert(a.is_taken(p, n) == b.is_taken(p, n));
    }
}

/// The run of pages that has been handed out lies apart from those that had been.
proof fn lemma_handed_out(before: StdEnv, after: StdEnv, p: int, pages: nat)
    requires
        before.wf(),
        before.sound(),
        pages > 0,
        before.has_room(pages),
        after.first_page() == before.first_page(),
        p == before.first_page() + PAGE_SIZE * buddy_system::split_off(
            before.lists(),
            bits::ceil_log2(pages) as int,
        ),
    ensures
        !before.granted().contains_key(p),
        forall|q: int| #[trigger]
            before.granted().contains_key(q) ==> model::pages_apart(
                q,
                before.granted()[q],
                p,
                pages,
            ) && before.frames_apart(q, before.granted()[q], p, pages),
{
    let c = bits::ceil_log2(pages) as int;
    let lists = before.lists();
    let b = buddy_system::split_off(lists, c) as int;
    let size = bits::next_pow2(pages);
    bits::lemma_next_pow2(pages);
    assert(before.frame(p) == b);
    assert forall|q: int| #[trigger] before.granted().contains_key(q) implies
        model::pages_apart(q, before.granted()[q], p, pages) && before.frames_apart(
        q,
        before.granted()[q],
        p,
        pages,
    ) by {
        let k = before.granted()[q];
        let f = before.frame(q);
        bits::lemma_next_pow2(k);
        assert(before.in_chunk(q, k));
        assert(before.is_taken(q, k));
        // a common frame would be the larger of the two first ones
        let x: int = if f <= b {
            b
        } else {
            f
        };
        if !(f + bits::next_pow2(k) <= b || b + size <= f) {
            buddy_system::law_allocated_were_free(lists, c, x);
            assert(buddy_system::is_free(lists, x));
        }
    }
}

} // verus!
