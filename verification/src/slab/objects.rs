//! Lists of free objects, which are linked through the objects themselves.

use crate::memory::{self, Memory};
use vstd::prelude::*;

verus! {

/// The object that is taken first, or 0 where there is none.
pub open spec fn top(objects: Seq<usize>) -> usize {
    if objects.len() == 0 {
        0
    } else {
        objects.last()
    }
}

/// The first word of the object at index `i` holds the address of the one that is taken after it.
pub open spec fn link_ok(mem: Memory<'_>, objects: Seq<usize>, i: int) -> bool {
    &&& mem.has_word(objects[i] as int)
    &&& mem.word_at(objects[i] as int) == top(objects.take(i))
}

/// The first words of the objects link them.
pub open spec fn linked(mem: Memory<'_>, objects: Seq<usize>) -> bool {
    forall|i: int| 0 <= i < objects.len() ==> #[trigger] link_ok(mem, objects, i)
}

/// A list of free objects. The first word of each holds the address of the one that is taken after
/// it.
pub struct FreeList {
    head: usize,
    objects: Ghost<Seq<usize>>,
}

impl View for FreeList {
    type V = Seq<usize>;

    closed spec fn view(&self) -> Seq<usize> {
        self.objects@
    }
}

impl FreeList {
    #[verifier::type_invariant]
    spec fn inv(&self) -> bool {
        &&& self.head == top(self.objects@)
        &&& forall|i: int| 0 <= i < self.objects@.len() ==> #[trigger] self.objects@[i] != 0
    }

    pub fn new() -> (r: Self)
        ensures
            r@ == Seq::<usize>::empty(),
    {
        FreeList { head: 0, objects: Ghost(Seq::empty()) }
    }

    pub fn is_empty(&self) -> (r: bool)
        ensures
            r == (self@.len() == 0),
    {
        proof {
            use_type_invariant(self);
        }
        self.head == 0
    }

    /// Takes an object, if there is one.
    pub fn pop(&mut self, mem: &Memory<'_>) -> (r: Option<usize>)
        requires
            linked(*mem, old(self)@),
        ensures
            r is Some == (old(self)@.len() > 0),
            r matches Some(object) ==> object == old(self)@.last(),
            final(self)@ == (if old(self)@.len() > 0 {
                old(self)@.drop_last()
            } else {
                old(self)@
            }),
    {
        proof {
            use_type_invariant(&*self);
        }
        if self.head == 0 {
            return None;
        }
        let object: usize = self.head;
        let ghost rest = self@.drop_last();
        proof {
            assert(link_ok(*mem, self@, self@.len() - 1));
            assert(self@.take(self@.len() - 1) =~= rest);
        }
        let next: usize = mem.read(object);
        *self = FreeList { head: next, objects: Ghost(rest) };
        Some(object)
    }

    /// Puts an object before the others.
    pub fn push(&mut self, mem: &mut Memory<'_>, object: usize)
        requires
            object > 0,
            old(mem).has_word(object as int),
        ensures
            final(self)@ == old(self)@.push(object),
            memory::wrote(*old(mem), *final(mem), set![object as int]),
            final(mem).word_at(object as int) == top(old(self)@),
    {
        proof {
            use_type_invariant(&*self);
        }
        let ghost before = *mem;
        mem.write(object, self.head);
        proof {
            memory::lemma_wrote_one(before, *mem, object as int);
        }
        let ghost objects = self@.push(object);
        *self = FreeList { head: object, objects: Ghost(objects) };
    }

    /// Takes all objects.
    pub fn take(&mut self) -> (r: FreeList)
        ensures
            r@ == old(self)@,
            final(self)@ == Seq::<usize>::empty(),
    {
        proof {
            use_type_invariant(&*self);
        }
        let r = FreeList { head: self.head, objects: Ghost(self@) };
        *self = FreeList::new();
        r
    }
}

/// What is linked stays linked where only other words are written.
pub proof fn lemma_linked_kept(
    m1: Memory<'_>,
    m2: Memory<'_>,
    t: Set<int>,
    objects: Seq<usize>,
)
    requires
        memory::wrote(m1, m2, t),
        linked(m1, objects),
        forall|i: int|
            0 <= i < objects.len() ==> memory::clear_of(#[trigger] objects[i] as int, t),
    ensures
        linked(m2, objects),
{
    memory::lemma_wrote_shape(m1, m2, t);
    assert forall|i: int| 0 <= i < objects.len() implies #[trigger] link_ok(m2, objects, i) by {
        assert(link_ok(m1, objects, i));
        memory::lemma_kept(m1, m2, t, objects[i] as int);
    }
}

/// What is left of a list stays linked.
pub proof fn lemma_linked_rest(mem: Memory<'_>, objects: Seq<usize>)
    requires
        linked(mem, objects),
        objects.len() > 0,
    ensures
        linked(mem, objects.drop_last()),
{
    let rest = objects.drop_last();
    assert forall|i: int| 0 <= i < rest.len() implies #[trigger] link_ok(mem, rest, i) by {
        assert(link_ok(mem, objects, i));
        assert(rest.take(i) =~= objects.take(i));
    }
}

/// One more object is linked where it lies apart from the others.
pub proof fn lemma_linked_more(m1: Memory<'_>, m2: Memory<'_>, objects: Seq<usize>, object: usize)
    requires
        memory::wrote(m1, m2, set![object as int]),
        linked(m1, objects),
        m1.has_word(object as int),
        m2.word_at(object as int) == top(objects),
        forall|i: int|
            0 <= i < objects.len() ==> memory::words_apart(
                #[trigger] objects[i] as int,
                object as int,
            ),
    ensures
        linked(m2, objects.push(object)),
{
    let t = set![object as int];
    lemma_linked_kept(m1, m2, t, objects);
    memory::lemma_wrote_shape(m1, m2, t);
    let more = objects.push(object);
    assert forall|i: int| 0 <= i < more.len() implies #[trigger] link_ok(m2, more, i) by {
        assert(more.take(i) =~= objects.take(i));
        if i < objects.len() {
            assert(link_ok(m2, objects, i));
        } else {
            assert(objects.take(i) =~= objects);
        }
    }
}

} // verus!
