//! Addresses that carry a counter, and cells of them that threads share.

use core::sync::atomic::{AtomicU64, Ordering};
use vstd::prelude::*;

verus! {

const UPPER_BITS: u64 = 0xffff_0000_0000_0000;

const UPPER_SHIFT: u64 = 48;

const SIGN_BIT: u64 = 0x8000_0000_0000;

/// The lower 48 bits of an address are below this.
pub const ADDRESS_LIMIT: u64 = 0x1_0000_0000_0000;

/// The address with these lower 48 bits: the 16 bits above are all like the highest of them.
pub open spec fn canonical(low: u64) -> u64 {
    if low % ADDRESS_LIMIT < 0x8000_0000_0000 {
        low % ADDRESS_LIMIT
    } else {
        (low % ADDRESS_LIMIT + 0xffff_0000_0000_0000) as u64
    }
}

/// Compound pointer with 16-bit tid and the 48-bit real address.
#[derive(Debug, Clone, Copy, PartialEq, Eq, Structural)]
pub struct CompoundPtr(u64);

/// The number that holds the lower 48 bits of an address, and the counter above them.
pub open spec fn compound(ptr: u64, tid: u16) -> int {
    ptr as int % (ADDRESS_LIMIT as int) + tid * ADDRESS_LIMIT
}

/// The counter behind `tid`; behind the greatest comes 0.
pub open spec fn next_tid(tid: u16) -> u16 {
    if tid == u16::MAX {
        0
    } else {
        (tid + 1) as u16
    }
}

fn with_tid(ptr: u64, tid: u16) -> (r: u64)
    ensures
        r == compound(ptr, tid),
{
    let t: u64 = tid as u64;
    proof {
        assert((ptr & !0xffff_0000_0000_0000u64) | (t << 48) == (ptr % 0x1_0000_0000_0000)
            + t * 0x1_0000_0000_0000) by (bit_vector)
            requires
                t <= 0xffff,
        ;
    }
    (ptr & !UPPER_BITS) | (t << UPPER_SHIFT)
}

fn take_tid(ptr: u64) -> (r: u16)
    ensures
        r == ptr / ADDRESS_LIMIT,
{
    let t: u64 = (ptr & UPPER_BITS) >> UPPER_SHIFT;
    proof {
        assert(((ptr & 0xffff_0000_0000_0000) >> 48) == ptr / 0x1_0000_0000_0000 && ptr
            / 0x1_0000_0000_0000 <= 0xffff) by (bit_vector);
    }
    t as u16
}

fn erase_tid(ptr: u64) -> (r: u64)
    ensures
        r == canonical(ptr),
{
    proof {
        assert(ptr & !0xffff_0000_0000_0000u64 == ptr % 0x1_0000_0000_0000) by (bit_vector);
        assert((ptr & 0x8000_0000_0000 == 0) == (ptr % 0x1_0000_0000_0000 < 0x8000_0000_0000))
            by (bit_vector);
        assert(ptr | 0xffff_0000_0000_0000u64 == (ptr % 0x1_0000_0000_0000)
            + 0xffff_0000_0000_0000u64) by (bit_vector);
    }
    if ptr & SIGN_BIT == 0 {
        ptr & !UPPER_BITS
    } else {
        ptr | UPPER_BITS
    }
}

impl Default for CompoundPtr {
    fn default() -> (r: Self)
        ensures
            r.value() == 0,
    {
        CompoundPtr::new(0)
    }
}

impl CompoundPtr {
    /// The address and the counter as one number.
    pub closed spec fn value(self) -> u64 {
        self.0
    }

    /// The address.
    pub open spec fn address(self) -> u64 {
        canonical(self.value())
    }

    /// The counter.
    pub open spec fn counter(self) -> u16 {
        (self.value() / ADDRESS_LIMIT) as u16
    }

    pub fn new(ptr: u64) -> (r: Self)
        ensures
            r.value() == compound(ptr, 0),
            r.address() == canonical(ptr),
            r.counter() == 0,
    {
        CompoundPtr(with_tid(ptr, 0))
    }

    pub fn with_tid(ptr: u64, tid: u16) -> (r: Self)
        ensures
            r.value() == compound(ptr, tid),
            r.address() == canonical(ptr),
            r.counter() == tid,
    {
        CompoundPtr(with_tid(ptr, tid))
    }

    /// The address `ptr` with the counter behind this one's.
    pub fn new_next(self, ptr: u64) -> (r: Self)
        ensures
            r.value() == compound(ptr, next_tid(self.counter())),
            r.address() == canonical(ptr),
            r.counter() == next_tid(self.counter()),
            r.counter() as int == (self.counter() + 1) % 0x1_0000,
    {
        CompoundPtr::with_tid(ptr, self.tid().wrapping_add(1))
    }

    pub fn as_ptr(self) -> (r: u64)
        ensures
            r == self.address(),
    {
        erase_tid(self.0)
    }

    pub fn is_null(self) -> (r: bool)
        ensures
            r == (self.address() == 0),
    {
        self.as_ptr() == 0
    }

    pub fn tid(self) -> (r: u16)
        ensures
            r == self.counter(),
    {
        take_tid(self.0)
    }

    pub fn increment_tid(&mut self)
        ensures
            final(self).address() == old(self).address(),
            final(self).counter() == next_tid(old(self).counter()),
            final(self).counter() as int == (old(self).counter() + 1) % 0x1_0000,
            final(self).value() == compound(
                old(self).address(),
                next_tid(old(self).counter()),
            ),
    {
        *self = CompoundPtr::with_tid(self.as_ptr(), self.tid().wrapping_add(1));
    }

    /// What follows this pointer where `f` gives the address: `None` where it gives none.
    pub fn next_by<F: Fn(u64) -> Option<u64>>(self, f: &F) -> (r: Option<CompoundPtr>)
        requires
            call_requires(*f, (self.address(),)),
        ensures
            match r {
                Some(next) => exists|ptr: u64|
                    next.value() == compound(ptr, next_tid(self.counter()))
                        && #[trigger] may_give(f, self.address(), Some(ptr)),
                None => may_give(f, self.address(), None),
            },
    {
        match f(self.as_ptr()) {
            Some(ptr) => {
                assert(may_give(f, self.address(), Some(ptr)));
                Some(self.new_next(ptr))
            },
            None => None,
        }
    }

    /// The pointer that a number read from a cell stands for.
    pub fn from_inner(value: u64) -> (r: Self)
        ensures
            r.value() == value,
            r.address() == canonical(value),
            r.counter() == value / ADDRESS_LIMIT,
    {
        proof {
            assert(value / 0x1_0000_0000_0000 <= 0xffff) by (bit_vector);
        }
        CompoundPtr(value)
    }

    /// The answer to an exchange, in pointers: the previous one, and whether it has been replaced.
    pub fn from_exchange(answer: Result<u64, u64>) -> (r: Result<CompoundPtr, CompoundPtr>)
        ensures
            match answer {
                Ok(value) => r matches Ok(previous) && previous.value() == value,
                Err(value) => r matches Err(previous) && previous.value() == value,
            },
    {
        match answer {
            Ok(value) => Ok(CompoundPtr::from_inner(value)),
            Err(value) => Err(CompoundPtr::from_inner(value)),
        }
    }

    pub fn inner(self) -> (r: u64)
        ensures
            r == self.value(),
    {
        self.0
    }
}

/// A value is its address and its counter: two pointers that agree in both are the same.
pub proof fn law_address_and_counter_are_all(a: CompoundPtr, b: CompoundPtr)
    requires
        a.address() == b.address(),
        a.counter() == b.counter(),
    ensures
        a == b,
{
}

/// An address comes back with any counter, in the lower half and in the upper half.
pub proof fn law_addresses_come_back(a: CompoundPtr, ptr: u64, tid: u16)
    requires
        ptr < 0x8000_0000_0000 || ptr >= 0xffff_8000_0000_0000,
        a.value() == compound(ptr, tid),
    ensures
        a.address() == ptr,
        a.counter() == tid,
{
}

/// The successor of a pointer differs from it, also where the address is the same again.
pub proof fn law_successor_differs(a: CompoundPtr, b: CompoundPtr)
    requires
        b.counter() == next_tid(a.counter()),
    ensures
        b != a,
{
}

/// The orders with which a value can be loaded.
pub open spec fn can_load(order: Ordering) -> bool {
    order is Acquire || order is Relaxed || order is SeqCst
}

/// The orders with which a value can be stored.
pub open spec fn can_store(order: Ordering) -> bool {
    order is Release || order is Relaxed || order is SeqCst
}

/// The pairs of orders with which a value can be exchanged: that of the exchange, and that of the
/// load where there is none. The latter is not stronger.
pub open spec fn can_exchange(success: Ordering, failure: Ordering) -> bool {
    match failure {
        Ordering::Relaxed => {
            success is Relaxed || success is Acquire || success is Release || success is AcqRel
                || success is SeqCst
        },
        Ordering::Acquire => success is Acquire || success is AcqRel || success is SeqCst,
        Ordering::SeqCst => success is SeqCst,
        _ => false,
    }
}

/// `f` may give `r` for the address `ptr`.
pub open spec fn may_give<F: Fn(u64) -> Option<u64>>(f: &F, ptr: u64, r: Option<u64>) -> bool {
    call_ensures(*f, (ptr,), r)
}

/// A cell for a [`CompoundPtr`] that threads share. Other threads may write it at any time, so that
/// no contract says what is in it.
#[derive(Debug)]
pub struct AtomicPtr {
    p: AtomicU64,
}

impl Default for AtomicPtr {
    fn default() -> Self {
        Self::new(0)
    }
}

impl AtomicPtr {
    /// A cell that starts with what [`CompoundPtr::new`] gives for the address.
    pub fn new(ptr: u64) -> Self {
        AtomicPtr { p: AtomicU64::new(CompoundPtr::new(ptr).inner()) }
    }

    /// Loads a value from the pointer.
    ///
    /// `load` takes an [`Ordering`] argument which describes the memory ordering
    /// of this operation. Possible values are `SeqCst`, `Acquire` and `Relaxed`.
    pub fn load(&self, order: Ordering) -> CompoundPtr
        requires
            can_load(order),
    {
        CompoundPtr::from_inner(self.p.load(order))
    }

    /// Stores a value into the pointer.
    ///
    /// `store` takes an [`Ordering`] argument which describes the memory ordering
    /// of this operation. Possible values are `SeqCst`, `Release` and `Relaxed`.
    pub fn store(&self, ptr: CompoundPtr, order: Ordering)
        requires
            can_store(order),
    {
        self.p.store(ptr.inner(), order);
    }

    /// Stores a value into the pointer, returning the previous value.
    ///
    /// `swap` takes an [`Ordering`] argument which describes the memory ordering
    /// of this operation. All ordering modes are possible.
    pub fn swap(&self, ptr: CompoundPtr, order: Ordering) -> CompoundPtr {
        CompoundPtr::from_inner(self.p.swap(ptr.inner(), order))
    }

    /// Stores a value into the pointer if the current value is the same as the `current` value.
    ///
    /// The return value is a result indicating whether the new value was written and containing
    /// the previous value. On success this value is guaranteed to be equal to `current`.
    pub fn compare_exchange(
        &self,
        current: CompoundPtr,
        new: CompoundPtr,
        success: Ordering,
        failure: Ordering,
    ) -> (r: Result<CompoundPtr, CompoundPtr>)
        requires
            can_exchange(success, failure),
        ensures
            match r {
                Ok(previous) => previous == current,
                Err(previous) => previous != current,
            },
    {
        CompoundPtr::from_exchange(
            exchange(&self.p, current.inner(), new.inner(), success, failure),
        )
    }

    /// Stores a value into the pointer if the current value is the same as the `current` value.
    ///
    /// Unlike [`AtomicPtr::compare_exchange`], this function is allowed to spuriously fail even
    /// when the comparison succeeds, which can result in more efficient code on some platforms. The
    /// return value is a result indicating whether the new value was written and containing the
    /// previous value.
    pub fn compare_exchange_weak(
        &self,
        current: CompoundPtr,
        new: CompoundPtr,
        success: Ordering,
        failure: Ordering,
    ) -> (r: Result<CompoundPtr, CompoundPtr>)
        requires
            can_exchange(success, failure),
        ensures
            r matches Ok(previous) ==> previous == current,
    {
        CompoundPtr::from_exchange(
            exchange_weak(&self.p, current.inner(), new.inner(), success, failure),
        )
    }

    /// Fetches the value, and applies a function to its address that returns an optional new
    /// address. Returns a `Result` of `Ok(previous_address)` if the function returned `Some(_)`,
    /// else `Err(previous_address)`. The counter of a new value is the one behind the previous.
    ///
    /// Note: This may call the function multiple times if the value has been
    /// changed from other threads in the meantime, as long as the function
    /// returns `Some(_)`, but the function will have been applied only once to
    /// the stored value.
    pub fn fetch_update<F: Fn(u64) -> Option<u64>>(
        &self,
        set_order: Ordering,
        fetch_order: Ordering,
        f: F,
    ) -> (r: Result<u64, u64>)
        requires
            can_exchange(set_order, fetch_order),
            forall|ptr: u64| ptr == canonical(ptr) ==> #[trigger] call_requires(f, (ptr,)),
        ensures
            match r {
                Ok(ptr) => ptr == canonical(ptr) && exists|next: u64|
                    may_give(&f, ptr, Some(next)),
                Err(ptr) => ptr == canonical(ptr) && may_give(&f, ptr, None),
            },
    {
        let step = |value: u64| -> (r: Option<u64>)
            ensures
                match r {
                    Some(v) => exists|next: u64|
                        v == compound(next, next_tid(CompoundPtr(value).counter()))
                            && #[trigger] may_give(&f, CompoundPtr(value).address(), Some(next)),
                    None => may_give(&f, CompoundPtr(value).address(), None),
                },
            {
                match CompoundPtr(value).next_by(&f) {
                    Some(next) => Some(next.inner()),
                    None => None,
                }
            };
        match raw_fetch_update(&self.p, set_order, fetch_order, step) {
            Ok(value) => {
                proof {
                    let v = choose|v: u64| call_ensures(step, (value,), Some(v));
                    let next = choose|next: u64|
                        v == compound(next, next_tid(CompoundPtr(value).counter()))
                            && #[trigger] may_give(&f, CompoundPtr(value).address(), Some(next));
                    assert(may_give(&f, CompoundPtr(value).address(), Some(next)));
                }
                Ok(CompoundPtr(value).as_ptr())
            },
            Err(value) => Err(CompoundPtr(value).as_ptr()),
        }
    }
}

/// [`AtomicU64::compare_exchange`] gives back the previous value, as `Ok` where that was `current`,
/// and then only. It panics where the order for the load is not one for loads. That `new` is stored
/// is not stated: other threads may have stored something else since.
#[verifier::external_body]
fn exchange(
    cell: &AtomicU64,
    current: u64,
    new: u64,
    success: Ordering,
    failure: Ordering,
) -> (r: Result<u64, u64>)
    requires
        can_load(failure),
    ensures
        match r {
            Ok(previous) => previous == current,
            Err(previous) => previous != current,
        },
{
    cell.compare_exchange(current, new, success, failure)
}

/// [`AtomicU64::compare_exchange_weak`] gives back the previous value, as `Ok` only where that was
/// `current`. It may fail where it was, too. It panics where the order for the load is not one for
/// loads.
#[verifier::external_body]
fn exchange_weak(
    cell: &AtomicU64,
    current: u64,
    new: u64,
    success: Ordering,
    failure: Ordering,
) -> (r: Result<u64, u64>)
    requires
        can_load(failure),
    ensures
        r matches Ok(previous) ==> previous == current,
{
    cell.compare_exchange_weak(current, new, success, failure)
}

/// [`AtomicU64::fetch_update`] gives back the previous value, as `Ok` where the function gave
/// `Some` for it, else as `Err`. It panics where the order for the load is not one for loads.
#[verifier::external_body]
fn raw_fetch_update<F: Fn(u64) -> Option<u64>>(
    cell: &AtomicU64,
    set_order: Ordering,
    fetch_order: Ordering,
    f: F,
) -> (r: Result<u64, u64>)
    requires
        can_load(fetch_order),
        forall|value: u64| #[trigger] call_requires(f, (value,)),
    ensures
        match r {
            Ok(previous) => exists|next: u64| call_ensures(f, (previous,), Some(next)),
            Err(previous) => call_ensures(f, (previous,), None),
        },
{
    cell.fetch_update(set_order, fetch_order, f)
}

/// The counter counts the steps, modulo its 16 bits.
pub proof fn law_counter_counts_steps(tid: u16)
    ensures
        next_tid(tid) as int == (tid + 1) % 0x1_0000,
{
}

/// Of an address the lower 48 bits are kept, and the bits above them are all as the highest of
/// those. The counter leaves the address alone.
pub proof fn law_lower_bits_are_kept(a: CompoundPtr, ptr: u64, tid: u16)
    requires
        a.value() == compound(ptr, tid),
    ensures
        a.address() as int % 0x1_0000_0000_0000 == ptr as int % 0x1_0000_0000_0000,
        a.address() < 0x8000_0000_0000 || a.address() >= 0xffff_8000_0000_0000,
        a.counter() == tid,
{
}

} // verus!
