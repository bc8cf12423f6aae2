use cargo_abc::order::key_less;

#[test]
fn key_less_orders_by_bytes() {
    assert!(key_less("anyhow", "serde"));
    assert!(!key_less("serde", "anyhow"));
    assert!(key_less("serde", "tokio"));
}

#[test]
fn key_is_not_less_than_itself() {
    assert!(!key_less("serde", "serde"));
    assert!(!key_less("", ""));
}

#[test]
fn prefix_comes_before_its_extensions() {
    assert!(key_less("ab", "abc"));
    assert!(!key_less("abc", "ab"));
    assert!(key_less("", "a"));
    assert!(!key_less("a", ""));
}

#[test]
fn order_is_case_sensitive() {
    assert!(key_less("Zebra", "apple"));
    assert!(!key_less("apple", "Zebra"));
    assert!(key_less("Serde", "serde"));
}

#[test]
fn digits_and_marks_come_by_their_bytes() {
    assert!(key_less("a-b", "a_b"));
    assert!(key_less("a1", "a_"));
    assert!(key_less("a10", "a2"));
}

#[test]
fn characters_beyond_ascii_come_by_their_encoding() {
    assert!(key_less("z", "\u{e9}"));
    assert!(key_less("\u{e9}", "\u{65e5}"));
    assert!(key_less("\u{65e5}", "\u{1f600}"));
    assert!(!key_less("\u{1f600}", "\u{ffff}"));
}

#[test]
fn key_less_agrees_with_the_order_of_strings() {
    let keys = ["", "a", "A", "ab", "b", "serde", "serde_json", "serde-json", "\u{e9}", "~"];
    for a in keys {
        for b in keys {
            assert_eq!(key_less(a, b), a < b, "{a:?} and {b:?}");
        }
    }
}
