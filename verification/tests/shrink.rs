use flat_string::FlatString;

#[test]
fn check_truncate() {
    let mut s = FlatString::<10>::from_str("Hello");
    s.truncate(3);
    assert_eq!(s.as_str(), "Hel");
    s.truncate(300);
    assert_eq!(s.as_str(), "Hel");
}

#[test]
fn check_pop() {
    let mut s = FlatString::<10>::from_str("Hi");
    assert_eq!(s.pop(), Some('i'));
    assert_eq!(s.chars_count(), 1);
    assert_eq!(s.len(), 1);
    assert_eq!(s.pop(), Some('H'));
    assert_eq!(s.chars_count(), 0);
    assert_eq!(s.len(), 0);
    assert_eq!(s.pop(), None);
    assert_eq!(s.chars_count(), 0);
    assert_eq!(s.len(), 0);

    s = FlatString::<10>::from_str("sこmんe");
    assert_eq!(s.pop(), Some('e'));
    assert_eq!(s.chars_count(), 4);
    assert_eq!(s.len(), 8);
    assert_eq!(s.pop(), Some('ん'));
    assert_eq!(s.chars_count(), 3);
    assert_eq!(s.len(), 5);
    assert_eq!(s.pop(), Some('m'));
    assert_eq!(s.chars_count(), 2);
    assert_eq!(s.len(), 4);
    assert_eq!(s.pop(), Some('こ'));
    assert_eq!(s.chars_count(), 1);
    assert_eq!(s.len(), 1);
    assert_eq!(s.pop(), Some('s'));
    assert_eq!(s.chars_count(), 0);
    assert_eq!(s.len(), 0);
    assert_eq!(s.pop(), None);
    assert_eq!(s.chars_count(), 0);
    assert_eq!(s.len(), 0);
}

#[test]
fn check_remove() {
    let mut s = FlatString::<7>::from_str("aんbcd");
    assert_eq!(s.remove(1), 'ん');
    assert_eq!(s.as_str(), "abcd");

    assert_eq!(s.remove(3), 'd');
    assert_eq!(s.as_str(), "abc");

    assert_eq!(s.remove(0), 'a');
    assert_eq!(s.as_str(), "bc");

    assert_eq!(s.remove(0), 'b');
    assert_eq!(s.as_str(), "c");

    assert_eq!(s.remove(0), 'c');
    assert_eq!(s.as_str(), "");
}

#[test]
fn check_truncate_recounts_characters() {
    let mut s = FlatString::<10>::from_str("aんbん");
    assert_eq!(s.chars_count(), 4);
    s.truncate(4);
    assert_eq!(s.as_str(), "aん");
    assert_eq!(s.len(), 4);
    assert_eq!(s.chars_count(), 2);
    s.truncate(0);
    assert_eq!(s.as_str(), "");
    assert_eq!(s.chars_count(), 0);
}

#[test]
fn check_remove_four_byte_character() {
    let mut s = FlatString::<9>::from_str("a𝄞bc");
    assert_eq!(s.chars_count(), 4);
    assert_eq!(s.remove(1), '𝄞');
    assert_eq!(s.as_str(), "abc");
    assert_eq!(s.len(), 3);
    assert_eq!(s.chars_count(), 3);
}

#[test]
fn check_pop_four_byte_character() {
    let mut s = FlatString::<8>::from_str("ab𝄞");
    assert_eq!(s.pop(), Some('𝄞'));
    assert_eq!(s.as_str(), "ab");
    assert_eq!(s.len(), 2);
}
