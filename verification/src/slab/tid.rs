//! Small numbers for threads.

use std::collections::VecDeque;
use vstd::prelude::*;

verus! {

/// Uniquely identifies a thread.
#[derive(Debug, Clone, Copy, PartialEq, Eq, Structural)]
pub struct Tid {
    id: usize,
}

impl Tid {
    pub closed spec fn id(self) -> usize {
        self.id
    }

    pub fn as_usize(&self) -> (r: usize)
        ensures
            r == self.id(),
    {
        self.id
    }

    fn from_usize(id: usize) -> (r: Self)
        ensures
            r.id() == id,
    {
        Tid { id }
    }

    pub fn new(id: usize) -> (r: Self)
        ensures
            r.id() == id,
    {
        Self::from_usize(id)
    }

    /// The number of the thread with this registration, which gets one where it has none.
    pub fn current(registration: &mut Registration, registry: &mut Registry) -> (r: Self)
        ensures
            registered(
                *old(registration),
                *old(registry),
                *final(registration),
                *final(registry),
                r.id(),
            ),
    {
        registration.current(registry)
    }

    /// Whether this is the number of the thread with this registration, which gets one where it has
    /// none.
    pub fn is_current(self, registration: &mut Registration, registry: &mut Registry) -> (r: bool)
        ensures
            registered(
                *old(registration),
                *old(registry),
                *final(registration),
                *final(registry),
                final(registration)@->0,
            ),
            r == (final(registration)@ == Some(self.id())),
    {
        self == registration.current(registry)
    }
}

/// The number of a thread, if it has one.
#[derive(Debug)]
pub struct Registration(Option<usize>);

impl View for Registration {
    type V = Option<usize>;

    closed spec fn view(&self) -> Option<usize> {
        self.0
    }
}

/// The numbers that threads can get.
#[derive(Debug)]
pub struct Registry {
    next: usize,
    free: VecDeque<usize>,
}

/// Which numbers threads can get.
pub struct RegistryModel {
    /// The least number that no thread has had.
    pub next: usize,
    /// The numbers that have come back; the last one is given out first.
    pub free: Seq<usize>,
}

impl RegistryModel {
    /// The numbers that have come back had been given out, and none is there twice.
    pub open spec fn ok(self) -> bool {
        &&& forall|i: int| 0 <= i < self.free.len() ==> #[trigger] self.free[i] < self.next
        &&& self.free.no_duplicates()
    }

    /// A thread has the number.
    pub open spec fn is_held(self, id: usize) -> bool {
        id < self.next && !self.free.contains(id)
    }

    /// The number that is given out next.
    pub open spec fn upcoming(self) -> usize {
        if self.free.len() > 0 {
            self.free.last()
        } else {
            self.next
        }
    }

    /// The next number has been given out. Behind the greatest comes 0.
    pub open spec fn given(self) -> RegistryModel {
        if self.free.len() > 0 {
            RegistryModel { free: self.free.drop_last(), ..self }
        } else if self.next == usize::MAX {
            RegistryModel { next: 0, ..self }
        } else {
            RegistryModel { next: (self.next + 1) as usize, ..self }
        }
    }

    /// A number has come back.
    pub open spec fn returned(self, id: usize) -> RegistryModel {
        RegistryModel { free: self.free.push(id), ..self }
    }
}

impl View for Registry {
    type V = RegistryModel;

    closed spec fn view(&self) -> RegistryModel {
        RegistryModel { next: self.next, free: self.free@ }
    }
}

/// A thread has the number `id`: the one that it had, or else the next that is given out.
pub open spec fn registered(
    registration: Registration,
    registry: Registry,
    registration_after: Registration,
    registry_after: Registry,
    id: usize,
) -> bool {
    &&& registration_after@ == Some(id)
    &&& match registration@ {
        Some(had) => id == had && registry_after@ == registry@,
        None => id == registry@.upcoming() && registry_after@ == registry@.given(),
    }
}

impl Registry {
    pub fn new() -> (r: Self)
        ensures
            r@.next == 0,
            r@.free.len() == 0,
            r@.ok(),
    {
        Registry { next: 0, free: VecDeque::new() }
    }
}

impl Registration {
    pub fn new() -> (r: Self)
        ensures
            r@ is None,
    {
        Registration(None)
    }

    pub fn current(&mut self, registry: &mut Registry) -> (r: Tid)
        ensures
            registered(*old(self), *old(registry), *final(self), *final(registry), r.id()),
    {
        match self.0 {
            Some(id) => Tid::new(id),
            None => self.register(registry),
        }
    }

    pub fn register(&mut self, registry: &mut Registry) -> (r: Tid)
        ensures
            final(self)@ == Some(r.id()),
            r.id() == old(registry)@.upcoming(),
            final(registry)@ == old(registry)@.given(),
    {
        let id: usize = match registry.free.pop_back() {
            Some(id) => id,
            None => {
                let id: usize = registry.next;
                registry.next = registry.next.wrapping_add(1);
                id
            },
        };
        self.0 = Some(id);
        Tid::new(id)
    }

    /// Gives the number back, when the thread ends.
    pub fn release(&self, registry: &mut Registry)
        ensures
            final(registry)@ == (match self@ {
                Some(id) => old(registry)@.returned(id),
                None => old(registry)@,
            }),
    {
        if let Some(id) = self.0 {
            registry.free.push_back(id);
        }
    }
}

/// A thread that registers gets a number that no thread has, and only that one is taken.
pub proof fn law_numbers_are_unique(m: RegistryModel)
    requires
        m.ok(),
        m.next < usize::MAX,
    ensures
        m.given().ok(),
        !m.is_held(m.upcoming()),
        forall|x: usize| #[trigger]
            m.given().is_held(x) == (m.is_held(x) || x == m.upcoming()),
{
    if m.free.len() > 0 {
        let last = m.free.len() - 1;
        assert(m.free[last] == m.upcoming());
        assert forall|x: usize| #[trigger] m.given().is_held(x) == (m.is_held(x) || x
            == m.upcoming()) by {
            if m.free.contains(x) && x != m.upcoming() {
                let i = m.free.index_of(x);
                assert(m.given().free[i] == x);
            }
            if m.given().free.contains(x) {
                let i = m.given().free.index_of(x);
                assert(m.free[i] == x);
                assert(m.free[i] != m.free[last]);
            }
        }
    }
}

/// A number that comes back can be given out again, and only that one.
pub proof fn law_numbers_come_back(m: RegistryModel, id: usize)
    requires
        m.ok(),
        m.is_held(id),
    ensures
        m.returned(id).ok(),
        m.returned(id).upcoming() == id,
        forall|x: usize| #[trigger] m.returned(id).is_held(x) == (m.is_held(x) && x != id),
{
    let n = m.returned(id);
    assert forall|x: usize| #[trigger] n.is_held(x) == (m.is_held(x) && x != id) by {
        if m.free.contains(x) {
            let i = m.free.index_of(x);
            assert(n.free[i] == x);
        }
        if n.free.contains(x) && x != id {
            let i = n.free.index_of(x);
            assert(m.free[i] == x);
        }
        assert(n.free[m.free.len() as int] == id);
    }
    assert(n.free.no_duplicates()) by {
        assert forall|i: int, j: int|
            0 <= i < n.free.len() && 0 <= j < n.free.len() && i != j implies n.free[i]
            != n.free[j] by {
            if i < m.free.len() {
                assert(m.free.contains(m.free[i]));
            }
            if j < m.free.len() {
                assert(m.free.contains(m.free[j]));
            }
        }
    }
}

impl RegistryModel {
    /// The threads that run have these numbers.
    pub open spec fn runs(self, numbers: Seq<usize>) -> bool {
        &&& self.ok()
        &&& numbers.no_duplicates()
        &&& forall|i: int| 0 <= i < numbers.len() ==> #[trigger] self.is_held(numbers[i])
    }
}

/// No two threads that run have the same number: a thread that registers gets one that none of
/// the others has, and one that ends leaves the others theirs.
pub proof fn law_threads_have_different_numbers(m: RegistryModel, numbers: Seq<usize>, i: int)
    requires
        m.runs(numbers),
    ensures
        m.next < usize::MAX ==> m.given().runs(numbers.push(m.upcoming())),
        0 <= i < numbers.len() ==> m.returned(numbers[i]).runs(numbers.remove(i)),
{
    if m.next < usize::MAX {
        law_numbers_are_unique(m);
        let more = numbers.push(m.upcoming());
        assert forall|j: int| 0 <= j < more.len() implies #[trigger] m.given().is_held(more[j]) by {
            if j < numbers.len() {
                assert(m.is_held(numbers[j]));
            }
        }
        assert forall|a: int, b: int|
            0 <= a < more.len() && 0 <= b < more.len() && a != b implies more[a] != more[b] by {
            if a < numbers.len() {
                assert(m.is_held(numbers[a]));
            }
            if b < numbers.len() {
                assert(m.is_held(numbers[b]));
            }
        }
    }
    if 0 <= i < numbers.len() {
        assert(m.is_held(numbers[i]));
        law_numbers_come_back(m, numbers[i]);
        let fewer = numbers.remove(i);
        assert forall|j: int| 0 <= j < fewer.len() implies #[trigger] m.returned(
            numbers[i],
        ).is_held(fewer[j]) by {
            let k = if j < i {
                j
            } else {
                j + 1
            };
            assert(fewer[j] == numbers[k]);
            assert(m.is_held(numbers[k]));
        }
    }
}

/// A number that has come back is given out before a new one, the last that came back first. Where
/// none has come back, the least number that no thread has had is given out, so that the numbers
/// count up from 0.
pub proof fn law_numbers_in_order(m: RegistryModel)
    ensures
        m.free.len() == 0 ==> {
            &&& m.upcoming() == m.next
            &&& m.given().free == m.free
            &&& m.next < usize::MAX ==> m.given().next == m.next + 1
            &&& m.next == usize::MAX ==> m.given().next == 0
        },
        m.free.len() > 0 ==> {
            &&& m.upcoming() == m.free[m.free.len() - 1]
            &&& m.given().next == m.next
            &&& m.given().free == m.free.take(m.free.len() - 1)
        },
{
    if m.free.len() > 0 {
        assert(m.given().free =~= m.free.take(m.free.len() - 1));
    }
}

} // verus!
