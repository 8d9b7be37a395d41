use flat_string::FlatString;

#[test]
fn check_push_str() {
    let mut s = FlatString::<10>::new();
    s.push_str("Hello");
    assert_eq!(s.len(), 5);
    assert_eq!(s.chars_count(), 5);
    assert_eq!(s.as_str(), "Hello");
    s.push_str(" World !");
    assert_eq!(s.len(), 10);
    assert_eq!(s.chars_count(), 10);
    assert_eq!(s.as_str(), "Hello Worl");
}

#[test]
fn check_try_push_str() {
    let mut s = FlatString::<10>::new();
    assert_eq!(s.try_push_str("Hello"), Some("Hello"));
    assert_eq!(s.len(), 5);
    assert_eq!(s.chars_count(), 5);
    assert_eq!(s.as_str(), "Hello");
    assert_eq!(s.try_push_str("World !"), None);
    assert_eq!(s.len(), 5);
    assert_eq!(s.chars_count(), 5);
    assert_eq!(s.as_str(), "Hello");
}

#[test]
fn check_push_char() {
    let mut s = FlatString::<10>::new();
    s.push('H');
    assert_eq!(s.len(), 1);
    assert_eq!(s.chars_count(), 1);
    assert_eq!(s.as_str(), "H");
    s.push('e');
    assert_eq!(s.len(), 2);
    assert_eq!(s.chars_count(), 2);
    assert_eq!(s.as_str(), "He");
    s.push('l');
    assert_eq!(s.len(), 3);
    assert_eq!(s.chars_count(), 3);
    assert_eq!(s.as_str(), "Hel");
    s.push('l');
    assert_eq!(s.len(), 4);
    assert_eq!(s.chars_count(), 4);
    assert_eq!(s.as_str(), "Hell");
    s.push('o');
    assert_eq!(s.len(), 5);
    assert_eq!(s.chars_count(), 5);
    assert_eq!(s.as_str(), "Hello");
}

#[test]
fn check_try_push_char() {
    let mut s = FlatString::<5>::new();
    assert_eq!(s.try_push('H'), Some("H"));
    assert_eq!(s.len(), 1);
    assert_eq!(s.chars_count(), 1);
    assert_eq!(s.as_str(), "H");
    assert_eq!(s.try_push('e'), Some("He"));
    assert_eq!(s.len(), 2);
    assert_eq!(s.chars_count(), 2);
    assert_eq!(s.as_str(), "He");
    assert_eq!(s.try_push('l'), Some("Hel"));
    assert_eq!(s.len(), 3);
    assert_eq!(s.chars_count(), 3);
    assert_eq!(s.as_str(), "Hel");
    assert_eq!(s.try_push('l'), Some("Hell"));
    assert_eq!(s.len(), 4);
    assert_eq!(s.chars_count(), 4);
    assert_eq!(s.as_str(), "Hell");
    assert_eq!(s.try_push('o'), Some("Hello"));
    assert_eq!(s.len(), 5);
    assert_eq!(s.chars_count(), 5);
    assert_eq!(s.as_str(), "Hello");
    assert_eq!(s.try_push('!'), None);
    assert_eq!(s.len(), 5);
    assert_eq!(s.chars_count(), 5);
    assert_eq!(s.as_str(), "Hello");
}

#[test]
fn check_set() {
    let mut s = FlatString::<10>::from_str("Hello");
    s.set("World !");
    assert_eq!(s.len(), 7);
    assert_eq!(s.chars_count(), 7);
    assert_eq!(s.as_str(), "World !");
}

#[test]
fn check_set_partial() {
    let mut s = FlatString::<5>::from_str("Hello");
    s.set("World !");
    assert_eq!(s.len(), 5);
    assert_eq!(s.chars_count(), 5);
    assert_eq!(s.as_str(), "World");
}

#[test]
fn check_single_fitting_char_is_written() {
    // One byte of room: a one-byte character is written, the wider one
    // behind it is dropped whole.
    let mut s = FlatString::<4>::from_str("abc");
    s.push_str("dん");
    assert_eq!(s.as_str(), "abcd");
    assert_eq!(s.len(), 4);
    assert_eq!(s.chars_count(), 4);
}

#[test]
fn check_push_to_full_buffer_changes_nothing() {
    let mut s = FlatString::<3>::from_str("abc");
    s.push('x');
    assert_eq!(s.as_str(), "abc");
    s.push_str("yz");
    assert_eq!(s.as_str(), "abc");
}

#[test]
fn check_wide_char_never_split_on_push() {
    // Two bytes of room cannot take a three-byte character.
    let mut s = FlatString::<5>::from_str("abc");
    s.push('ん');
    assert_eq!(s.as_str(), "abc");
    assert_eq!(s.len(), 3);
    let t = FlatString::<2>::from_str("ん");
    assert_eq!(t.as_str(), "");
    assert_eq!(t.len(), 0);
    assert_eq!(t.chars_count(), 0);
}

#[test]
fn check_round_trip_when_it_fits() {
    let s = FlatString::<10>::from_str("ab ん!");
    assert_eq!(s.as_str(), "ab ん!");
    assert_eq!(s.len(), 7);
    assert_eq!(s.chars_count(), 5);
    let t = FlatString::<21>::from_str("こんにちは世界");
    assert_eq!(t.as_str(), "こんにちは世界");
    assert_eq!(t.len(), 21);
    assert_eq!(t.chars_count(), 7);
}
