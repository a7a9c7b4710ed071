use std::cmp::Ordering;
use transform::compare::{by_priority, is_numeric, Priority};

#[test]
fn numeric_bytes() {
    assert!(is_numeric(b'0'));
    assert!(is_numeric(b'5'));
    assert!(is_numeric(b'9'));
    assert!(!is_numeric(b'/'));
    assert!(!is_numeric(b':'));
    assert!(!is_numeric(b'a'));
}

#[test]
fn parses_leading_digits() {
    assert_eq!(Priority::try_from_str("10-setup"), Some(Priority::Number(10)));
    assert_eq!(Priority::try_from_str("007"), Some(Priority::Number(7)));
    assert_eq!(Priority::try_from_str("42"), Some(Priority::Number(42)));
    assert_eq!(Priority::try_from_str("setup"), Some(Priority::Unranked));
    assert_eq!(Priority::try_from_str(""), Some(Priority::Unranked));
    assert_eq!(
        Priority::try_from_str("18446744073709551615-max"),
        Some(Priority::Number(u64::MAX))
    );
    assert_eq!(Priority::try_from_str("18446744073709551616-over"), None);
}

#[test]
fn priority_order_puts_numbers_first() {
    let a = Priority::Number(1);
    let b = Priority::Number(2);
    let n = Priority::Unranked;
    assert_eq!(by_priority(&a, &b), Ordering::Less);
    assert_eq!(by_priority(&b, &a), Ordering::Greater);
    assert_eq!(by_priority(&a, &a), Ordering::Equal);
    assert_eq!(by_priority(&a, &n), Ordering::Less);
    assert_eq!(by_priority(&n, &a), Ordering::Greater);
    assert_eq!(by_priority(&n, &n), Ordering::Equal);
}
