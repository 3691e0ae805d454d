use allocators::bits::{is_power_of_two, log2, lowest_bit, next_power_of_two, power_of_two};
use allocators::slab::{align_down, PAGE_SIZE};

#[test]
fn logarithms() {
    assert_eq!(log2(1), 0);
    assert_eq!(log2(2), 1);
    assert_eq!(log2(3), 1);
    assert_eq!(log2(4096), 12);
    assert_eq!(log2(usize::MAX), usize::BITS - 1);
}

#[test]
fn powers() {
    assert!(is_power_of_two(1));
    assert!(is_power_of_two(1 << 20));
    assert!(!is_power_of_two(0));
    assert!(!is_power_of_two(12));
    assert_eq!(next_power_of_two(0), 1);
    assert_eq!(next_power_of_two(5), 8);
    assert_eq!(next_power_of_two(8), 8);
    assert_eq!(power_of_two(0), 1);
    assert_eq!(power_of_two(13), 8192);
    assert_eq!(lowest_bit(1), 1);
    assert_eq!(lowest_bit(24), 8);
}

#[test]
fn addresses_are_aligned_down() {
    assert_eq!(PAGE_SIZE, 4096);
    assert_eq!(align_down(0x12345, PAGE_SIZE), 0x12000);
    assert_eq!(align_down(0x12000, PAGE_SIZE), 0x12000);
    assert_eq!(align_down(7, 8), 0);
    assert_eq!(align_down(7, 1), 7);
}
