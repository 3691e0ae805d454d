//! Slabs and lists of slabs.

use crate::memory::{self, Memory};
use crate::slab::flags::SlabFlags;
use crate::slab::objects::{self, FreeList};
use crate::slab::PAGE_SIZE;
use vstd::prelude::*;

verus! {

/// What a slab is.
pub struct SlabModel {
    /// The address of the first page.
    pub page_start: int,
    /// The free objects; the one that is taken first is the last.
    pub free: Seq<usize>,
    /// The number of objects.
    pub objects: nat,
    /// The number of objects that are in use.
    pub inuse: nat,
    /// The slab is the active one of a cpu.
    pub frozen: bool,
    /// The slab before this one in a list of slabs.
    pub prev: Option<usize>,
    /// The slab behind this one in a list of slabs.
    pub next: Option<usize>,
}

impl SlabModel {
    /// All objects count as in use.
    pub open spec fn is_full(self) -> bool {
        self.objects == self.inuse
    }

    /// One object less is in use. Where none is, the counts borrow from each other as the fields of
    /// one number do.
    pub open spec fn one_less(self) -> SlabModel {
        if self.inuse > 0 {
            SlabModel { inuse: (self.inuse - 1) as nat, ..self }
        } else if self.objects > 0 {
            SlabModel { inuse: 0xFFFF_FFFF, objects: (self.objects - 1) as nat, ..self }
        } else {
            SlabModel {
                inuse: 0xFFFF_FFFF,
                objects: 0x7FFF_FFFF,
                frozen: !self.frozen,
                ..self
            }
        }
    }

    /// The slab after an object has been given back to it.
    pub open spec fn pushed(self, object: usize) -> SlabModel {
        SlabModel { free: self.free.push(object), ..self.one_less() }
    }

    /// The slab after its free objects have been taken. Where it becomes the active slab of a cpu,
    /// all of its objects count as in use.
    pub open spec fn taken(self, froze: bool) -> SlabModel {
        if froze {
            SlabModel { free: Seq::empty(), inuse: self.objects, frozen: true, ..self }
        } else {
            SlabModel { free: Seq::empty(), ..self }
        }
    }
}

/// The number of objects of `size` bytes in a page.
pub open spec fn per_page(size: nat) -> nat {
    PAGE_SIZE as nat / size
}

/// The address of the object with number `k` of a slab. No object reaches over the end of a page.
pub open spec fn object_at(page_start: int, size: nat, k: nat) -> int {
    page_start + PAGE_SIZE * (k / per_page(size)) + (k % per_page(size)) * size
}

/// A slab of `pages` pages can hold objects of `size` bytes.
pub open spec fn fits(page_start: int, pages: nat, size: nat) -> bool {
    &&& 8 <= size <= PAGE_SIZE
    &&& 1 <= pages
    &&& 0 < page_start
    &&& page_start + PAGE_SIZE * pages <= usize::MAX
}

/// A new slab, all objects of which are free; the first is taken first. The number of objects has 31
/// bits; one more that it has marks the slab.
pub open spec fn new_slab(page_start: int, pages: nat, size: nat) -> SlabModel {
    let objects = per_page(size) * pages;
    SlabModel {
        page_start,
        free: Seq::new(
            objects,
            |i: int| object_at(page_start, size, (objects - 1 - i) as nat) as usize,
        ),
        objects: objects % 0x8000_0000,
        inuse: 0,
        frozen: objects / 0x8000_0000 % 2 == 1,
        prev: None,
        next: None,
    }
}

/// An object lies in one page of its slab.
pub proof fn lemma_object_in_page(page_start: int, pages: nat, size: nat, k: nat)
    requires
        fits(page_start, pages, size),
        k < per_page(size) * pages,
    ensures
        per_page(size) >= 1,
        k / per_page(size) < pages,
        0 <= (k % per_page(size)) * size,
        (k % per_page(size)) * size + size <= PAGE_SIZE,
        page_start <= object_at(page_start, size, k),
        object_at(page_start, size, k) + size <= page_start + PAGE_SIZE * pages,
{
    let pp = per_page(size);
    vstd::arithmetic::div_mod::lemma_fundamental_div_mod(PAGE_SIZE as int, size as int);
    assert(pp >= 1) by (nonlinear_arith)
        requires
            PAGE_SIZE as int == size * pp + PAGE_SIZE as int % (size as int),
            0 <= PAGE_SIZE as int % (size as int) < size,
            size <= PAGE_SIZE,
            pp >= 0,
    ;
    assert(pp * size <= PAGE_SIZE) by (nonlinear_arith)
        requires
            PAGE_SIZE as int == size * pp + PAGE_SIZE as int % (size as int),
            0 <= PAGE_SIZE as int % (size as int),
    ;
    let q = k / pp;
    let r = k % pp;
    vstd::arithmetic::div_mod::lemma_fundamental_div_mod(k as int, pp as int);
    assert(q < pages) by (nonlinear_arith)
        requires
            k == pp * q + r,
            0 <= r,
            k < pp * pages,
            pp >= 1,
    ;
    assert(r * size + size <= PAGE_SIZE && 0 <= r * size) by (nonlinear_arith)
        requires
            0 <= r < pp,
            pp * size <= PAGE_SIZE,
    ;
}

/// A slab has an object.
pub proof fn lemma_first_object(page_start: int, pages: nat, size: nat)
    requires
        fits(page_start, pages, size),
    ensures
        per_page(size) * pages > 0,
        new_slab(page_start, pages, size).free.len() > 0,
{
    let pp = per_page(size);
    vstd::arithmetic::div_mod::lemma_div_is_ordered(size as int, PAGE_SIZE as int, size as int);
    vstd::arithmetic::div_mod::lemma_div_by_self(size as int);
    assert(pp * pages > 0) by (nonlinear_arith)
        requires
            pp >= 1,
            pages >= 1,
    ;
}

/// Two objects of a slab have no byte in common.
pub proof fn lemma_objects_apart(page_start: int, pages: nat, size: nat, k: nat, j: nat)
    requires
        fits(page_start, pages, size),
        k < j < per_page(size) * pages,
    ensures
        object_at(page_start, size, k) + size <= object_at(
            page_start,
            size,
            j,
        ),
{
    let pp = per_page(size);
    lemma_object_in_page(page_start, pages, size, k);
    lemma_object_in_page(page_start, pages, size, j);
    vstd::arithmetic::div_mod::lemma_div_is_ordered(k as int, j as int, pp as int);
    vstd::arithmetic::div_mod::lemma_fundamental_div_mod(k as int, pp as int);
    vstd::arithmetic::div_mod::lemma_fundamental_div_mod(j as int, pp as int);
    if k / pp == j / pp {
        let a = (k % pp) as int;
        let b = (j % pp) as int;
        assert(a * size + size <= b * size) by (nonlinear_arith)
            requires
                a + 1 <= b,
        ;
    }
}

/// The addresses of the objects of a slab.
pub open spec fn slots(page_start: int, pages: nat, size: nat) -> Set<int> {
    Set::new(
        |w: int|
            exists|k: nat|
                k < per_page(size) * pages && w == #[trigger] object_at(page_start, size, k),
    )
}

/// A slab: some pages that are cut into objects of one size.
pub struct Slab {
    page_start: usize,
    freelist: FreeList,
    /// [`SlabFlags`]
    flags: SlabFlags,
    prev_slab: Option<usize>,
    next_slab: Option<usize>,
}

impl View for Slab {
    type V = SlabModel;

    closed spec fn view(&self) -> SlabModel {
        SlabModel {
            page_start: self.page_start as int,
            free: self.freelist@,
            objects: self.flags.spec_objects(),
            inuse: self.flags.spec_inuse(),
            frozen: self.flags.spec_frozen(),
            prev: self.prev_slab,
            next: self.next_slab,
        }
    }
}

impl Slab {
    /// A slab of the pages from `page_start` on, with objects of `size` bytes.
    pub fn new(mem: &mut Memory<'_>, page_start: usize, pages: usize, size: usize) -> (r: Self)
        requires
            fits(page_start as int, pages as nat, size as nat),
            old(mem).base() <= page_start,
            page_start + PAGE_SIZE * pages <= old(mem).limit(),
        ensures
            r@ == new_slab(page_start as int, pages as nat, size as nat),
            objects::linked(*final(mem), r@.free),
            memory::wrote(
                *old(mem),
                *final(mem),
                slots(page_start as int, pages as nat, size as nat),
            ),
    {
        let objects_per_page: usize = PAGE_SIZE / size;
        assert(objects_per_page * pages <= PAGE_SIZE * pages) by (nonlinear_arith)
            requires
                objects_per_page <= PAGE_SIZE,
                pages >= 0,
        ;
        let objects: usize = objects_per_page * pages;
        let ghost model = new_slab(page_start as int, pages as nat, size as nat);
        let ghost all = slots(page_start as int, pages as nat, size as nat);
        let ghost m0 = *mem;
        let mut freelist = FreeList::new();
        let mut k: usize = objects;
        proof {
            memory::lemma_wrote_nothing(m0);
            memory::lemma_wrote_wider(m0, m0, Set::empty(), all);
        }
        while k > 0
            invariant
                fits(page_start as int, pages as nat, size as nat),
                m0 == *old(mem),
                m0.base() <= page_start,
                page_start + PAGE_SIZE * pages <= m0.limit(),
                all == slots(page_start as int, pages as nat, size as nat),
                objects_per_page == per_page(size as nat),
                objects == per_page(size as nat) * pages as nat,
                model == new_slab(page_start as int, pages as nat, size as nat),
                k <= objects,
                freelist@.len() == objects - k,
                forall|i: int|
                    0 <= i < freelist@.len() ==> #[trigger] freelist@[i] == model.free[i],
                objects::linked(*mem, freelist@),
                memory::wrote(m0, *mem, all),
            decreases k,
        {
            k = k - 1;
            proof {
                lemma_object_in_page(page_start as int, pages as nat, size as nat, k as nat);
                assert(PAGE_SIZE * (k / objects_per_page) + PAGE_SIZE <= PAGE_SIZE * pages);
            }
            let page: usize = page_start + PAGE_SIZE * (k / objects_per_page);
            let object: usize = page + (k % objects_per_page) * size;
            let ghost m1 = *mem;
            let ghost before = freelist@;
            proof {
                memory::lemma_wrote_shape(m0, m1, all);
                assert(object == object_at(page_start as int, size as nat, k as nat));
            }
            freelist.push(mem, object);
            proof {
                assert(all.contains(object as int));
                memory::lemma_wrote_chain(m0, m1, *mem, all, set![object as int], all);
                assert forall|i: int| 0 <= i < before.len() implies memory::words_apart(
                    #[trigger] before[i] as int,
                    object as int,
                ) by {
                    let j = (objects - 1 - i) as nat;
                    lemma_object_in_page(page_start as int, pages as nat, size as nat, j);
                    assert(before[i] == model.free[i]);
                    lemma_objects_apart(
                        page_start as int,
                        pages as nat,
                        size as nat,
                        k as nat,
                        j,
                    );
                }
                objects::lemma_linked_more(m1, *mem, before, object);
            }
        }
        let r = Slab {
            page_start,
            freelist,
            flags: SlabFlags::new(false, objects, 0),
            prev_slab: None,
            next_slab: None,
        };
        assert(r@.free =~= model.free);
        r
    }

    pub fn page_start(&self) -> (r: usize)
        ensures
            r == self@.page_start,
    {
        self.page_start
    }

    /// Whether the slab has a free object.
    pub fn has_free(&self) -> (r: bool)
        ensures
            r == (self@.free.len() > 0),
    {
        !self.freelist.is_empty()
    }

    /// The slab is not active, and all of its objects are in use.
    pub fn is_full(&self) -> (r: bool)
        ensures
            r == (!self@.frozen && self@.is_full()),
    {
        !self.flags.is_frozen() && self.flags.objects() == self.flags.inuse()
    }

    /// The slab is not active, and none of its objects is in use.
    pub fn is_empty(&self) -> (r: bool)
        ensures
            r == (!self@.frozen && self@.inuse == 0),
    {
        !self.flags.is_frozen() && self.flags.inuse() == 0
    }

    /// Gives an object back.
    ///
    /// Returns `(was_full, is_empty_now)`
    pub fn push_object(&mut self, mem: &mut Memory<'_>, object: usize) -> (r: (bool, bool))
        requires
            object > 0,
            old(mem).has_word(object as int),
        ensures
            memory::wrote(*old(mem), *final(mem), set![object as int]),
            final(mem).word_at(object as int) == objects::top(old(self)@.free),
            final(self)@ == old(self)@.pushed(object),
            r.0 == (!old(self)@.frozen && old(self)@.is_full()),
            r.1 == (!old(self)@.frozen && old(self)@.inuse == 1),
    {
        self.freelist.push(mem, object);
        let flags = self.flags;
        self.flags = flags.minus_one();
        let was_full = !flags.is_frozen() && flags.objects() == flags.inuse();
        let is_empty = !flags.is_frozen() && flags.inuse() == 1;
        (was_full, is_empty)
    }

    /// Takes all free objects. With `froze` the slab becomes the active one of a cpu.
    pub fn take_freelist(&mut self, froze: bool) -> (r: FreeList)
        ensures
            final(self)@ == old(self)@.taken(froze),
            r@ == old(self)@.free,
    {
        if froze {
            self.flags = self.flags.set_inuse(self.flags.objects()).set_frozen(true);
        }
        self.freelist.take()
    }

    /// Ends that the slab is an active one, if all of its objects are in use. Returns whether they
    /// are.
    pub fn thaw_if_full(&mut self) -> (r: bool)
        ensures
            r == old(self)@.is_full(),
            final(self)@ == (if old(self)@.is_full() {
                SlabModel { frozen: false, ..old(self)@ }
            } else {
                old(self)@
            }),
    {
        let is_full = self.flags.objects() == self.flags.inuse();
        if is_full {
            self.flags = self.flags.set_frozen(false);
        }
        is_full
    }

    fn prev_slab(&self) -> (r: Option<usize>)
        ensures
            r == self@.prev,
    {
        self.prev_slab
    }

    fn next_slab(&self) -> (r: Option<usize>)
        ensures
            r == self@.next,
    {
        self.next_slab
    }

    fn set_prev_slab(&mut self, prev: Option<usize>)
        ensures
            final(self)@ == (SlabModel { prev, ..old(self)@ }),
    {
        self.prev_slab = prev;
    }

    fn set_next_slab(&mut self, next: Option<usize>)
        ensures
            final(self)@ == (SlabModel { next, ..old(self)@ }),
    {
        self.next_slab = next;
    }
}

/// All slabs, each known by its index.
pub struct SlabTable {
    slabs: Vec<Slab>,
}

impl View for SlabTable {
    type V = Seq<SlabModel>;

    closed spec fn view(&self) -> Seq<SlabModel> {
        Seq::new(self.slabs@.len(), |i: int| self.slabs@[i]@)
    }
}

impl SlabTable {
    pub fn new() -> (r: Self)
        ensures
            r@ == Seq::<SlabModel>::empty(),
    {
        let r = SlabTable { slabs: Vec::new() };
        assert(r@ =~= Seq::<SlabModel>::empty());
        r
    }

    /// Adds a slab and returns its index.
    pub fn add_slab(&mut self, slab: Slab) -> (r: usize)
        ensures
            r == old(self)@.len(),
            final(self)@ == old(self)@.push(slab@),
            final(self)@.len() <= usize::MAX,
    {
        let r: usize = self.slabs.len();
        self.slabs.push(slab);
        let count: usize = self.slabs.len();
        assert(self@ =~= old(self)@.push(slab@));
        r
    }

    pub fn page_start(&self, slab: usize) -> (r: usize)
        requires
            slab < self@.len(),
        ensures
            r == self@[slab as int].page_start,
    {
        self.slabs[slab].page_start()
    }

    pub fn is_full(&self, slab: usize) -> (r: bool)
        requires
            slab < self@.len(),
        ensures
            r == (!self@[slab as int].frozen && self@[slab as int].is_full()),
    {
        self.slabs[slab].is_full()
    }

    pub fn is_empty(&self, slab: usize) -> (r: bool)
        requires
            slab < self@.len(),
        ensures
            r == (!self@[slab as int].frozen && self@[slab as int].inuse == 0),
    {
        self.slabs[slab].is_empty()
    }

    /// Whether the slab has a free object.
    pub fn has_free(&self, slab: usize) -> (r: bool)
        requires
            slab < self@.len(),
        ensures
            r == (self@[slab as int].free.len() > 0),
    {
        self.slabs[slab].has_free()
    }

    /// See [`Slab::push_object`].
    pub fn push_object(
        &mut self,
        mem: &mut Memory<'_>,
        slab: usize,
        object: usize,
    ) -> (r: (bool, bool))
        requires
            slab < old(self)@.len(),
            object > 0,
            old(mem).has_word(object as int),
        ensures
            memory::wrote(*old(mem), *final(mem), set![object as int]),
            final(mem).word_at(object as int) == objects::top(old(self)@[slab as int].free),
            final(self)@ == old(self)@.update(
                slab as int,
                old(self)@[slab as int].pushed(object),
            ),
            r.0 == (!old(self)@[slab as int].frozen && old(self)@[slab as int].is_full()),
            r.1 == (!old(self)@[slab as int].frozen && old(self)@[slab as int].inuse == 1),
    {
        let r = self.slabs[slab].push_object(mem, object);
        assert(self@ =~= old(self)@.update(slab as int, old(self)@[slab as int].pushed(object)));
        r
    }

    /// See [`Slab::take_freelist`].
    pub fn take_freelist(&mut self, slab: usize, froze: bool) -> (r: FreeList)
        requires
            slab < old(self)@.len(),
        ensures
            final(self)@ == old(self)@.update(slab as int, old(self)@[slab as int].taken(froze)),
            r@ == old(self)@[slab as int].free,
    {
        let r = self.slabs[slab].take_freelist(froze);
        assert(self@ =~= old(self)@.update(slab as int, old(self)@[slab as int].taken(froze)));
        r
    }

    /// See [`Slab::thaw_if_full`].
    pub fn thaw_if_full(&mut self, slab: usize) -> (r: bool)
        requires
            slab < old(self)@.len(),
        ensures
            r == old(self)@[slab as int].is_full(),
            final(self)@ == old(self)@.update(slab as int, thawed(old(self)@[slab as int])),
    {
        let r = self.slabs[slab].thaw_if_full();
        assert(self@ =~= old(self)@.update(slab as int, thawed(old(self)@[slab as int])));
        r
    }

    fn prev_slab(&self, slab: usize) -> (r: Option<usize>)
        requires
            slab < self@.len(),
        ensures
            r == self@[slab as int].prev,
    {
        self.slabs[slab].prev_slab()
    }

    fn next_slab(&self, slab: usize) -> (r: Option<usize>)
        requires
            slab < self@.len(),
        ensures
            r == self@[slab as int].next,
    {
        self.slabs[slab].next_slab()
    }

    fn set_prev_slab(&mut self, slab: usize, prev: Option<usize>)
        requires
            slab < old(self)@.len(),
        ensures
            final(self)@ == with_prev(old(self)@, Some(slab), prev),
    {
        self.slabs[slab].set_prev_slab(prev);
        assert(self@ =~= with_prev(old(self)@, Some(slab), prev));
    }

    fn set_next_slab(&mut self, slab: usize, next: Option<usize>)
        requires
            slab < old(self)@.len(),
        ensures
            final(self)@ == with_next(old(self)@, Some(slab), next),
    {
        self.slabs[slab].set_next_slab(next);
        assert(self@ =~= with_next(old(self)@, Some(slab), next));
    }
}

/// The slab after it has ceased to be an active one, if all of its objects are in use.
pub open spec fn thawed(slab: SlabModel) -> SlabModel {
    if slab.is_full() {
        SlabModel { frozen: false, ..slab }
    } else {
        slab
    }
}

/// Makes `prev` the predecessor of a slab, if there is one.
pub open spec fn with_prev(
    slabs: Seq<SlabModel>,
    slab: Option<usize>,
    prev: Option<usize>,
) -> Seq<SlabModel> {
    match slab {
        Some(i) => slabs.update(i as int, SlabModel { prev, ..slabs[i as int] }),
        None => slabs,
    }
}

/// Makes `next` the successor of a slab, if there is one.
pub open spec fn with_next(
    slabs: Seq<SlabModel>,
    slab: Option<usize>,
    next: Option<usize>,
) -> Seq<SlabModel> {
    match slab {
        Some(i) => slabs.update(i as int, SlabModel { next, ..slabs[i as int] }),
        None => slabs,
    }
}

/// The index, if there is one, is that of a slab.
pub open spec fn known(slabs: Seq<SlabModel>, slab: Option<usize>) -> bool {
    slab matches Some(i) ==> i < slabs.len()
}

/// The links of all slabs lead to slabs.
pub open spec fn links_known(slabs: Seq<SlabModel>) -> bool {
    forall|i: int|
        0 <= i < slabs.len() ==> known(slabs, (#[trigger] slabs[i]).prev) && known(
            slabs,
            slabs[i].next,
        )
}

/// The slabs after `slab` has been put before `head`.
pub open spec fn list_pushed(
    slabs: Seq<SlabModel>,
    head: Option<usize>,
    slab: usize,
) -> Seq<SlabModel> {
    with_next(
        with_prev(with_prev(slabs, head, Some(slab)), Some(slab), None),
        Some(slab),
        head,
    )
}

/// The slabs after the first of a list has left it.
pub open spec fn list_popped(slabs: Seq<SlabModel>, head: usize) -> Seq<SlabModel> {
    with_next(with_prev(slabs, slabs[head as int].next, None), Some(head), None)
}

/// The slabs after `slab` has been taken out between its neighbours.
pub open spec fn list_removed(slabs: Seq<SlabModel>, slab: usize) -> Seq<SlabModel> {
    let s1 = with_next(slabs, slabs[slab as int].prev, slabs[slab as int].next);
    let s2 = with_prev(s1, s1[slab as int].next, s1[slab as int].prev);
    with_next(with_prev(s2, Some(slab), None), Some(slab), None)
}

/// A list of slabs.
#[derive(Debug, Clone, Copy, PartialEq, Eq)]
pub struct SlabList {
    head: Option<usize>,
    len: usize,
}

impl Default for SlabList {
    fn default() -> (r: Self)
        ensures
            r.first() is None,
            r.count() == 0,
    {
        SlabList::new()
    }
}

impl SlabList {
    /// The first slab.
    pub closed spec fn first(&self) -> Option<usize> {
        self.head
    }

    /// The length that the list has kept count of.
    pub closed spec fn count(&self) -> nat {
        self.len as nat
    }

    /// The first slab is a slab, and is counted.
    pub open spec fn wf(&self, slabs: Seq<SlabModel>) -> bool {
        &&& known(slabs, self.first())
        &&& self.first() is Some ==> self.count() > 0
    }

    pub proof fn lemma_count(&self)
        ensures
            self.count() <= usize::MAX,
    {
    }

    pub fn new() -> (r: Self)
        ensures
            r.first() is None,
            r.count() == 0,
    {
        SlabList { head: None, len: 0 }
    }

    pub fn len(&self) -> (r: usize)
        ensures
            r == self.count(),
    {
        self.len
    }

    /// The first slab.
    pub fn head(&self) -> (r: Option<usize>)
        ensures
            r == self.first(),
    {
        self.head
    }

    /// Puts a slab before the others.
    pub fn push(&mut self, slabs: &mut SlabTable, slab: usize)
        requires
            slab < old(slabs)@.len(),
            old(self).wf(old(slabs)@),
            old(self).count() < usize::MAX,
        ensures
            final(slabs)@ == list_pushed(old(slabs)@, old(self).first(), slab),
            final(self).first() == Some(slab),
            final(self).count() == old(self).count() + 1,
    {
        if let Some(head) = self.head {
            slabs.set_prev_slab(head, Some(slab));
        }
        slabs.set_prev_slab(slab, None);
        slabs.set_next_slab(slab, self.head);
        self.head = Some(slab);
        self.len = self.len + 1;
    }

    /// Takes the first slab out, if there is one. Those behind it leave the list too, though it
    /// goes on to count them.
    pub fn pop(&mut self, slabs: &mut SlabTable) -> (r: Option<usize>)
        requires
            old(self).wf(old(slabs)@),
            links_known(old(slabs)@),
        ensures
            r == old(self).first(),
            match r {
                Some(head) => {
                    &&& final(slabs)@ == list_popped(old(slabs)@, head)
                    &&& final(self).first() is None
                    &&& final(self).count() == old(self).count() - 1
                },
                None => *final(self) == *old(self) && final(slabs)@ == old(slabs)@,
            },
    {
        match self.head {
            Some(head) => {
                if let Some(next) = slabs.next_slab(head) {
                    slabs.set_prev_slab(next, None);
                }
                slabs.set_next_slab(head, None);
                self.len = self.len - 1;
                self.head = slabs.next_slab(head);
                Some(head)
            },
            None => None,
        }
    }

    /// Takes a slab of the list out.
    pub fn remove(&mut self, slabs: &mut SlabTable, slab: usize)
        requires
            slab < old(slabs)@.len(),
            links_known(old(slabs)@),
            old(self).count() > 0,
        ensures
            final(slabs)@ == list_removed(old(slabs)@, slab),
            final(self).first() == (if old(self).first() == Some(slab) {
                old(slabs)@[slab as int].next
            } else {
                old(self).first()
            }),
            final(self).count() == old(self).count() - 1,
    {
        if let Some(prev) = slabs.prev_slab(slab) {
            let next = slabs.next_slab(slab);
            slabs.set_next_slab(prev, next);
        }
        if let Some(next) = slabs.next_slab(slab) {
            let prev = slabs.prev_slab(slab);
            slabs.set_prev_slab(next, prev);
        }
        let next = slabs.next_slab(slab);
        match self.head {
            Some(head) => {
                if head == slab {
                    self.head = next;
                }
            },
            None => {},
        }
        slabs.set_prev_slab(slab, None);
        slabs.set_next_slab(slab, None);
        self.len = self.len - 1;
    }
}

/// The objects of a new slab are all free and lie one behind the other from the start of the first
/// page on. Where one more would not fit into a page, the next is at the start of the next page, and
/// so it goes on to the end of the last page. They come out in the order of their addresses.
pub proof fn law_slab_is_filled(page_start: int, pages: nat, size: nat)
    requires
        fits(page_start, pages, size),
    ensures
        ({
            let free = new_slab(page_start, pages, size).free;
            let end = page_start + 4096 * pages;
            let new = new_slab(page_start, pages, size);
            &&& new.page_start == page_start
            &&& new.inuse == 0
            &&& free.len() < 0x8000_0000 ==> new.objects == free.len() && !new.frozen
            &&& new.prev is None
            &&& new.next is None
            &&& free.len() > 0
            &&& free.last() == page_start
            &&& forall|i: int, j: int|
                #![trigger free[i], free[j]]
                0 < i < free.len() && j == i - 1 ==> {
                    ||| free[j] == free[i] + size && (free[i] - page_start) % 4096 + 2 * size <= 4096
                    ||| (free[j] - page_start) % 4096 == 0 && (free[i] - page_start) % 4096 + 2
                        * size > 4096 && free[i] + size <= free[j] <= free[i] + 4096
                }
            &&& free[0] + size <= end < free[0] + 2 * size
        }),
{
    let free = new_slab(page_start, pages, size).free;
    let n = per_page(size) * pages;
    let q = per_page(size) as int;
    vstd::arithmetic::div_mod::lemma_fundamental_div_mod(4096, size as int);
    assert(q >= 1) by {
        vstd::arithmetic::div_mod::lemma_div_non_zero(4096, size as int);
    }
    assert(n >= 1) by (nonlinear_arith)
        requires
            n == q * pages,
            q >= 1,
            pages >= 1,
    ;
    assert forall|k: nat| k < n implies page_start <= #[trigger] object_at(page_start, size, k)
        && object_at(page_start, size, k) + size <= page_start + 4096 * pages by {
        lemma_object_in_page(page_start, pages, size, k);
    }
    assert forall|i: int, j: int|
        #![trigger free[i], free[j]]
        0 < i < free.len() && j == i - 1 implies {
        ||| free[j] == free[i] + size && (free[i] - page_start) % 4096 + 2 * size <= 4096
        ||| (free[j] - page_start) % 4096 == 0 && (free[i] - page_start) % 4096 + 2 * size > 4096
            && free[i] + size <= free[j] <= free[i] + 4096
    } by {
        let k = (n - 1 - i) as nat;
        assert(free[i] == object_at(page_start, size, k));
        assert(free[j] == object_at(page_start, size, k + 1));
        lemma_next_object(page_start, size, k);
    }
    assert(free[free.len() - 1] == object_at(page_start, size, 0));
    lemma_next_object(page_start, size, 0);
    lemma_last_object(page_start, pages, size);
    assert(free[0] == object_at(page_start, size, (n - 1) as nat));
}

/// Where the object behind another one lies.
proof fn lemma_next_object(page_start: int, size: nat, k: nat)
    requires
        8 <= size <= PAGE_SIZE,
    ensures
        object_at(page_start, size, 0) == page_start,
        ({
            let x = object_at(page_start, size, k);
            let y = object_at(page_start, size, k + 1);
            ||| y == x + size && (x - page_start) % 4096 + 2 * size <= 4096
            ||| (y - page_start) % 4096 == 0 && (x - page_start) % 4096 + 2 * size > 4096 && x
                + size <= y <= x + 4096
        }),
{
    let q = per_page(size) as int;
    let s = size as int;
    vstd::arithmetic::div_mod::lemma_fundamental_div_mod(4096, s);
    vstd::arithmetic::div_mod::lemma_div_non_zero(4096, s);
    assert(q * s == s * q) by (nonlinear_arith);
    vstd::arithmetic::div_mod::lemma_fundamental_div_mod(k as int, q);
    let a = k as int / q;
    let r = k as int % q;
    vstd::arithmetic::div_mod::lemma_small_mod(0, q as nat);
    vstd::arithmetic::div_mod::lemma_basic_div(0, q);
    assert(0 * s == 0) by (nonlinear_arith);
    let x = object_at(page_start, size, k);
    let y = object_at(page_start, size, k + 1);
    assert(0 <= r * s <= 4096 - s) by (nonlinear_arith)
        requires
            0 <= r < q,
            q * s <= 4096,
            s > 0,
    ;
    assert((r + 1) * s == r * s + s) by (nonlinear_arith);
    assert(x - page_start == 4096 * a + r * s);
    vstd::arithmetic::div_mod::lemma_fundamental_div_mod_converse(x - page_start, 4096, a, r * s);
    if r + 1 < q {
        assert(k + 1 == q * a + (r + 1));
        vstd::arithmetic::div_mod::lemma_fundamental_div_mod_converse(k as int + 1, q, a, r + 1);
        assert((r + 2) * s <= 4096) by (nonlinear_arith)
            requires
                r + 2 <= q,
                q * s <= 4096,
                s > 0,
        ;
        assert((r + 2) * s == r * s + 2 * s) by (nonlinear_arith);
    } else {
        assert(q * (a + 1) == q * a + q) by (nonlinear_arith);
        vstd::arithmetic::div_mod::lemma_fundamental_div_mod_converse(k as int + 1, q, a + 1, 0);
        assert(y - page_start == 4096 * (a + 1));
        vstd::arithmetic::div_mod::lemma_fundamental_div_mod_converse(
            y - page_start,
            4096,
            a + 1,
            0,
        );
        assert(r * s + 2 * s > 4096) by (nonlinear_arith)
            requires
                r + 1 == q,
                q * s + s > 4096,
        ;
    }
}

/// The last object of a slab is the last for which there is room.
proof fn lemma_last_object(page_start: int, pages: nat, size: nat)
    requires
        fits(page_start, pages, size),
        per_page(size) * pages >= 1,
    ensures
        ({
            let x = object_at(page_start, size, (per_page(size) * pages - 1) as nat);
            x + size <= page_start + 4096 * pages < x + 2 * size
        }),
{
    let q = per_page(size) as int;
    let s = size as int;
    let p = pages as int;
    vstd::arithmetic::div_mod::lemma_fundamental_div_mod(4096, s);
    vstd::arithmetic::div_mod::lemma_div_non_zero(4096, s);
    assert(q * p - 1 == q * (p - 1) + (q - 1)) by (nonlinear_arith);
    vstd::arithmetic::div_mod::lemma_fundamental_div_mod_converse(q * p - 1, q, p - 1, q - 1);
    assert((q - 1) * s == q * s - s) by (nonlinear_arith);
    assert(q * s == s * q) by (nonlinear_arith);
}

/// A slab that is put before the others of a list is linked to the one that was first, and back.
/// Nothing else changes but these links.
pub proof fn law_pushed_slab_is_linked(slabs: Seq<SlabModel>, head: Option<usize>, slab: usize)
    requires
        slab < slabs.len(),
        known(slabs, head),
        head != Some(slab),
    ensures
        ({
            let after = list_pushed(slabs, head, slab);
            &&& after.len() == slabs.len()
            &&& after[slab as int].next == head
            &&& after[slab as int].prev is None
            &&& head matches Some(h) ==> after[h as int].prev == Some(slab) && after[h as int].next
                == slabs[h as int].next
            &&& forall|i: int|
                0 <= i < slabs.len() && i != slab && Some(i as usize) != head ==> #[trigger] after[i]
                    == slabs[i]
            &&& forall|i: int| 0 <= i < slabs.len() ==> {
                &&& (#[trigger] after[i]).page_start == slabs[i].page_start
                &&& after[i].free == slabs[i].free
                &&& after[i].objects == slabs[i].objects
                &&& after[i].inuse == slabs[i].inuse
                &&& after[i].frozen == slabs[i].frozen
            }
        }),
{
}

/// A slab that leaves a list, from its front or from between others, has no links any more, and its
/// neighbours are linked to each other. Nothing else changes but these links.
pub proof fn law_removed_slab_is_unlinked(slabs: Seq<SlabModel>, slab: usize)
    requires
        slab < slabs.len(),
        links_known(slabs),
        slabs[slab as int].prev != Some(slab),
        slabs[slab as int].next != Some(slab),
        slabs[slab as int].prev is Some ==> slabs[slab as int].prev != slabs[slab as int].next,
    ensures
        ({
            let after = list_removed(slabs, slab);
            let prev = slabs[slab as int].prev;
            let next = slabs[slab as int].next;
            &&& after.len() == slabs.len()
            &&& after[slab as int].prev is None
            &&& after[slab as int].next is None
            &&& prev matches Some(p) ==> after[p as int].next == next && after[p as int].prev
                == slabs[p as int].prev
            &&& next matches Some(n) ==> after[n as int].prev == prev && after[n as int].next
                == slabs[n as int].next
            &&& forall|i: int|
                0 <= i < slabs.len() && i != slab && Some(i as usize) != prev && Some(i as usize)
                    != next ==> #[trigger] after[i] == slabs[i]
            &&& forall|i: int| 0 <= i < slabs.len() ==> {
                &&& (#[trigger] after[i]).page_start == slabs[i].page_start
                &&& after[i].free == slabs[i].free
                &&& after[i].objects == slabs[i].objects
                &&& after[i].inuse == slabs[i].inuse
                &&& after[i].frozen == slabs[i].frozen
            }
            &&& prev is None ==> list_popped(slabs, slab) == after
        }),
{
    let after = list_removed(slabs, slab);
    assert(known(slabs, slabs[slab as int].prev));
    if slabs[slab as int].prev is None {
        assert(list_popped(slabs, slab) =~= after);
    }
}

/// How a slab counts. An object that is given back is the first to be taken again, and is one less
/// in use: the counts and the mark are one number, which goes down by one. A slab whose free objects
/// are taken over has none left; if it becomes an active one, all of its objects count as in use,
/// and it is marked. The mark goes just where all objects are in use.
pub proof fn law_slab_counts(s: SlabModel, object: usize, froze: bool)
    requires
        s.inuse < 0x1_0000_0000,
        s.objects < 0x8000_0000,
    ensures
        ({
            let p = s.pushed(object);
            let mark: int = if s.frozen {
                0x8000_0000_0000_0000
            } else {
                0
            };
            let mark_after: int = if p.frozen {
                0x8000_0000_0000_0000
            } else {
                0
            };
            &&& p.free == s.free.push(object)
            &&& p.page_start == s.page_start
            &&& p.prev == s.prev
            &&& p.next == s.next
            &&& p.inuse < 0x1_0000_0000
            &&& p.objects < 0x8000_0000
            &&& p.inuse + 0x1_0000_0000 * p.objects + mark_after == (s.inuse + 0x1_0000_0000
                * s.objects + mark - 1) % 0x1_0000_0000_0000_0000
        }),
        s.taken(froze).free.len() == 0,
        froze ==> s.taken(froze) == (SlabModel {
            free: Seq::empty(),
            inuse: s.objects,
            frozen: true,
            ..s
        }),
        !froze ==> s.taken(froze) == (SlabModel { free: Seq::empty(), ..s }),
        s.objects == s.inuse ==> thawed(s) == (SlabModel { frozen: false, ..s }),
        s.objects != s.inuse ==> thawed(s) == s,
{
}

} // verus!
