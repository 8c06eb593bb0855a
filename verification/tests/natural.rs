use cov::natural::{compare_naturally, digit_of};
use std::cmp::Ordering;

#[test]
fn test_numbers_compare_by_value() {
    assert_eq!(compare_naturally(b"clang-3.9", b"clang-3.10"), Ordering::Less);
    assert_eq!(compare_naturally(b"a10", b"a2"), Ordering::Greater);
    assert_eq!(compare_naturally(b"llvm-4/lib", b"llvm-12/lib"), Ordering::Less);
}

#[test]
fn test_equal_names_compare_equal() {
    assert_eq!(compare_naturally(b"abc7", b"abc7"), Ordering::Equal);
    assert_eq!(compare_naturally(b"", b""), Ordering::Equal);
}

#[test]
fn test_other_bytes_compare_by_value() {
    assert_eq!(compare_naturally(b"a", b"b"), Ordering::Less);
    assert_eq!(compare_naturally(b"b1", b"a2"), Ordering::Greater);
    assert_eq!(compare_naturally(b"ab", b"a"), Ordering::Greater);
}

#[test]
fn test_digit_of() {
    assert_eq!(digit_of(b'0'), Some(0));
    assert_eq!(digit_of(b'7'), Some(7));
    assert_eq!(digit_of(b'9'), Some(9));
    assert_eq!(digit_of(b'/'), None);
    assert_eq!(digit_of(b':'), None);
    assert_eq!(digit_of(b'a'), None);
}
