use bootutil::ops::{down_align, is_pow2, up_align};

#[test]
fn main_it_works() {
    assert_eq!(2 + 2, 4);
}

#[test]
fn lib_it_works() {
    assert_eq!(2 + 2, 4);
}

#[test]
fn align_exact_values() {
    assert_eq!(up_align(0x123, 0x10), 0x130);
    assert_eq!(up_align(0x120, 0x10), 0x120);
    assert_eq!(up_align(0, 0x1000), 0);
    assert_eq!(down_align(0x123, 0x10), 0x120);
    assert_eq!(down_align(0x120, 0x10), 0x120);
    assert_eq!(down_align(0xfff, 0x1000), 0);
}

#[test]
fn pow2_check() {
    assert!(is_pow2(1));
    assert!(is_pow2(2));
    assert!(is_pow2(0x1000));
    assert!(!is_pow2(0));
    assert!(!is_pow2(3));
    assert!(!is_pow2(0x1001));
}
