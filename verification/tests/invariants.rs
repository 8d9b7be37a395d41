use flat_string::FlatString;

fn assert_sound(s: &FlatString<10>) {
    let text = s.as_str();
    assert!(s.len() <= s.capacity());
    assert_eq!(s.len(), text.len());
    assert_eq!(s.chars_count(), text.chars().count());
    assert!(std::str::from_utf8(text.as_bytes()).is_ok());
}

#[test]
fn check_counters_track_content_through_mixed_operations() {
    let mut s = FlatString::<10>::new();
    assert_sound(&s);
    s.push_str("aんb");
    assert_sound(&s);
    s.push('こ');
    assert_sound(&s);
    s.insert(1, "xy");
    assert_sound(&s);
    s.insert_char(0, 'ん');
    assert_sound(&s);
    let _ = s.pop();
    assert_sound(&s);
    if s.len() > 0 {
        let _ = s.remove(0);
        assert_sound(&s);
    }
    s.set("こんにちは");
    assert_sound(&s);
    s.truncate(6);
    assert_sound(&s);
    let _ = s.try_push_str("xxxxx");
    assert_sound(&s);
    let _ = s.try_push('z');
    assert_sound(&s);
    s.clear();
    assert_sound(&s);
}

#[test]
fn check_capacity_is_never_exceeded() {
    let mut s = FlatString::<10>::new();
    for _ in 0..30 {
        s.push_str("んa");
        assert!(s.len() <= 10);
    }
    s.insert(0, "0123456789абв");
    assert!(s.len() <= 10);
    assert_eq!(s.capacity(), 10);
}
