use allocators::slab::tid::{Registration, Registry, Tid};

#[test]
fn threads_get_numbers() {
    let mut registry = Registry::new();
    let mut a = Registration::new();
    let mut b = Registration::new();
    assert_eq!(Tid::current(&mut a, &mut registry).as_usize(), 0);
    assert_eq!(Tid::current(&mut b, &mut registry).as_usize(), 1);
    assert_eq!(Tid::current(&mut a, &mut registry).as_usize(), 0);
    assert!(Tid::new(0).is_current(&mut a, &mut registry));
    assert!(!Tid::new(0).is_current(&mut b, &mut registry));
    assert!(Tid::new(3) == Tid::new(3));
    assert!(Tid::new(3) != Tid::new(4));
}

#[test]
fn numbers_that_come_back_are_given_out_last_in_first_out() {
    let mut registry = Registry::new();
    let mut a = Registration::new();
    let mut b = Registration::new();
    let mut c = Registration::new();
    a.current(&mut registry);
    b.current(&mut registry);
    a.release(&mut registry);
    b.release(&mut registry);
    Registration::new().release(&mut registry);
    assert_eq!(c.register(&mut registry).as_usize(), 1);
    assert_eq!(Registration::new().current(&mut registry).as_usize(), 0);
    assert_eq!(Registration::new().current(&mut registry).as_usize(), 2);
}
