use allocators::slab::atomic::{AtomicPtr, CompoundPtr};
use core::sync::atomic::Ordering;

#[test]
fn basics() {
    let mut five = 5;
    let ptr = core::ptr::from_mut(&mut five) as u64;
    let some_ptr = AtomicPtr::new(ptr);
    let value = some_ptr.load(Ordering::Relaxed);
    assert_eq!(value.as_ptr(), ptr);
    let mut ten = 10;
    let ptr = core::ptr::from_mut(&mut ten) as u64;
    some_ptr.store(CompoundPtr::new(ptr), Ordering::Relaxed);
    let value = some_ptr.load(Ordering::Relaxed);
    assert_eq!(value.as_ptr(), ptr);
    let mut fifteen = 15;
    let new = core::ptr::from_mut(&mut fifteen) as u64;
    let value = some_ptr.swap(CompoundPtr::new(new), Ordering::Relaxed);
    assert_eq!(value.as_ptr(), ptr);
}

#[test]
fn an_address_and_a_counter() {
    let p = CompoundPtr::with_tid(0x1234_5678_9abc, 7);
    assert_eq!(p.as_ptr(), 0x1234_5678_9abc);
    assert_eq!(p.tid(), 7);
    assert_eq!(p.inner(), 0x0007_1234_5678_9abc);
    assert!(!p.is_null());
    let q = p.new_next(0x10);
    assert_eq!(q.as_ptr(), 0x10);
    assert_eq!(q.tid(), 8);
    let mut r = CompoundPtr::with_tid(1, u16::MAX);
    r.increment_tid();
    assert_eq!(r.tid(), 0);
    assert_eq!(r.as_ptr(), 1);
    assert_eq!(CompoundPtr::new(0xffff_0000_0000_0008).inner(), 8);
    assert_eq!(CompoundPtr::new(0xffff_0000_0000_0008).as_ptr(), 8);
    assert!(CompoundPtr::default().is_null());
    assert!(CompoundPtr::with_tid(0, 3).is_null());
    assert_ne!(CompoundPtr::with_tid(0, 3), CompoundPtr::new(0));
}

#[test]
fn exchanges() {
    let cell = AtomicPtr::default();
    let null = CompoundPtr::new(0);
    let a = CompoundPtr::with_tid(0x40, 1);
    assert_eq!(
        cell.compare_exchange(a, a, Ordering::AcqRel, Ordering::Acquire),
        Err(null)
    );
    assert_eq!(
        cell.compare_exchange(null, a, Ordering::SeqCst, Ordering::Relaxed),
        Ok(null)
    );
    assert_eq!(cell.load(Ordering::SeqCst), a);
    assert_eq!(
        cell.compare_exchange_weak(null, a, Ordering::Release, Ordering::Relaxed),
        Err(a)
    );
    let mut done = false;
    while !done {
        done = cell
            .compare_exchange_weak(a, null, Ordering::Acquire, Ordering::Acquire)
            .is_ok();
    }
    assert_eq!(cell.load(Ordering::Acquire), null);
}

#[test]
fn updates_count() {
    let cell = AtomicPtr::new(0x40);
    assert_eq!(
        cell.fetch_update(Ordering::AcqRel, Ordering::Acquire, |p| Some(p + 8)),
        Ok(0x40)
    );
    let now = cell.load(Ordering::Relaxed);
    assert_eq!(now.as_ptr(), 0x48);
    assert_eq!(now.tid(), 1);
    assert_eq!(
        cell.fetch_update(Ordering::Relaxed, Ordering::Relaxed, |_| None),
        Err(0x48)
    );
    assert_eq!(cell.load(Ordering::Relaxed), now);
}

#[test]
fn what_follows_a_pointer() {
    let a = CompoundPtr::with_tid(0x40, 0xffff);
    assert_eq!(a.next_by(&|p| Some(p + 8)), Some(CompoundPtr::new(0x48)));
    assert_eq!(a.next_by(&|p| if p == 0x40 { None } else { Some(p) }), None);
}

#[test]
fn what_a_cell_holds_is_a_pointer() {
    let a = CompoundPtr::with_tid(0x40, 7);
    assert_eq!(a.inner(), 0x7_0000_0000_0040);
    assert_eq!(CompoundPtr::from_inner(0x7_0000_0000_0040), a);
    assert_eq!(CompoundPtr::from_inner(u64::MAX).tid(), 0xffff);
    assert_eq!(CompoundPtr::from_exchange(Ok(a.inner())), Ok(a));
    assert_eq!(CompoundPtr::from_exchange(Err(a.inner())), Err(a));
}

#[test]
fn addresses_of_both_halves_come_back() {
    for address in [
        0,
        8,
        0x7fff_ffff_fff8,
        0xffff_8000_0000_0000,
        0xffff_8000_0000_1000,
        0xffff_ffff_ffff_fff8,
    ] {
        assert_eq!(CompoundPtr::new(address).as_ptr(), address);
        let p = CompoundPtr::with_tid(address, 0xabcd);
        assert_eq!((p.as_ptr(), p.tid()), (address, 0xabcd));
        assert_eq!(p.new_next(address).as_ptr(), address);
        let cell = AtomicPtr::new(address);
        assert_eq!(cell.load(Ordering::SeqCst).as_ptr(), address);
        assert_eq!(
            cell.fetch_update(Ordering::AcqRel, Ordering::Acquire, |p| Some(p ^ 16)),
            Ok(address)
        );
        assert_eq!(cell.load(Ordering::SeqCst).as_ptr(), address ^ 16);
    }
    assert_eq!(CompoundPtr::new(0xffff_8000_0000_1000).inner(), 0x8000_0000_1000);
}
