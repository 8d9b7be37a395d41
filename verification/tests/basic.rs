use flat_string::FlatString;

#[test]
fn check_create_empty() {
    let s = FlatString::<10>::new();
    assert_eq!(s.len(), 0);
    assert_eq!(s.chars_count(), 0);
    assert_eq!(s.as_str(), "");
}

#[test]
fn check_create_with_str() {
    let s = FlatString::<10>::from_str("Hello");
    assert_eq!(s.len(), 5);
    assert_eq!(s.chars_count(), 5);
    assert_eq!(s.as_str(), "Hello");
}

#[test]
fn check_create_with_large_str() {
    let s = FlatString::<10>::from_str("Hello world from Rust");
    assert_eq!(s.len(), 10);
    assert_eq!(s.chars_count(), 10);
    assert_eq!(s.as_str(), "Hello worl");
}

#[test]
fn check_create_with_unicode_string_that_fits() {
    let s = FlatString::<30>::from_str("こんにちは世界");
    assert_eq!(s.len(), 21);
    assert_eq!(s.chars_count(), 7);
    assert_eq!(s.as_str(), "こんにちは世界");
}

#[test]
fn check_create_with_unicode_string_that_does_not_fit() {
    let s = FlatString::<10>::from_str("こんにちは世界");
    assert_eq!(s.len(), 9);
    assert_eq!(s.chars_count(), 3);
    assert_eq!(s.as_str(), "こんに");
}

#[test]
fn check_with_default_size() {
    let s = FlatString::<14>::from_str("zăpadă la școală");
    assert_eq!(s.capacity(), 14);
    assert_eq!(s.len(), 14);
    assert_eq!(s.chars_count(), 11);
    assert_eq!(s.as_str(), "zăpadă la ș");
}

#[test]
fn check_clear() {
    let mut s = FlatString::<10>::from_str("Hello");
    s.clear();
    assert_eq!(s.len(), 0);
    assert_eq!(s.chars_count(), 0);
    assert_eq!(s.as_str(), "");
}

#[test]
fn check_copy() {
    let s = FlatString::<10>::from_str("Hello");
    let s2 = s;
    assert_eq!(s2.len(), 5);
    assert_eq!(s2.chars_count(), 5);
    assert_eq!(s2.as_str(), "Hello");
    assert_eq!(s, s2);
}

#[test]
fn check_clone() {
    let s = FlatString::<10>::from_str("Hello");
    let s2 = s.clone();
    assert_eq!(s2.len(), 5);
    assert_eq!(s2.chars_count(), 5);
    assert_eq!(s2.as_str(), "Hello");
    assert_eq!(s, s2);
}

#[test]
fn check_memory_size() {
    let s = FlatString::<14>::from_str("Hello");
    assert_eq!(std::mem::size_of_val(&s), 16);
    let s = FlatString::<2>::from_str("Hello");
    assert_eq!(std::mem::size_of_val(&s), 4);
    assert_eq!(s.as_str(), "He");
}

#[test]
fn check_deref_from_str() {
    let s = FlatString::<10>::from_str("Hello");
    assert_eq!(s.len(), 5);
    assert_eq!(s.chars_count(), 5);
    assert_eq!(s.as_str(), "Hello");
    assert_eq!(s.as_str().starts_with("He"), true);
    assert_eq!(s.as_str().ends_with("lo"), true);
    assert_eq!(s.as_str().contains("ell"), true);
}

#[test]
fn check_display() {
    let s = FlatString::<10>::from_str("Hello");
    assert_eq!(format!("{}", s.as_str()), "Hello");
}

#[test]
fn check_is_empty_transitions() {
    let mut s = FlatString::<4>::new();
    assert!(s.is_empty());
    s.push('a');
    assert!(!s.is_empty());
    s.clear();
    assert!(s.is_empty());
}

#[test]
fn check_equality_ignores_stale_bytes() {
    let a = FlatString::<10>::from_str("ab");
    let mut b = FlatString::<10>::from_str("abcd");
    b.truncate(2);
    assert_eq!(a, b);
    let c = FlatString::<10>::from_str("ac");
    assert!(a != c);
}

#[test]
fn check_ordering_is_lexicographic_over_content() {
    let ab = FlatString::<10>::from_str("ab");
    let abc = FlatString::<10>::from_str("abc");
    let b = FlatString::<10>::from_str("b");
    assert!(ab < abc);
    assert!(ab < b);
    assert!(abc < b);
    assert!(b > ab);
    assert!(ab <= ab);
    assert!(ab >= ab);
    let ko = FlatString::<10>::from_str("こ");
    let nn = FlatString::<10>::from_str("ん");
    assert!(ko < nn);
}

#[test]
fn check_ordering_ignores_stale_bytes() {
    let mut x = FlatString::<10>::from_str("abz");
    x.truncate(2);
    let y = FlatString::<10>::from_str("abc");
    assert!(x < y);
    assert_eq!(x.partial_cmp(&y), Some(std::cmp::Ordering::Less));
    let z = FlatString::<10>::from_str("ab");
    assert_eq!(x.partial_cmp(&z), Some(std::cmp::Ordering::Equal));
}

#[test]
fn check_clear_is_idempotent_for_any_prior_state() {
    let mut s = FlatString::<10>::from_str("こんに");
    s.push('は');
    s.clear();
    assert_eq!(s.as_str(), "");
    assert_eq!(s.len(), 0);
    assert_eq!(s.chars_count(), 0);
    s.clear();
    assert_eq!(s.as_str(), "");
}
