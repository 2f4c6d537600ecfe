use playrust_alert::text::{str_eq, str_order};
use std::cmp::Ordering;

fn samples() -> Vec<&'static str> {
    vec![
        "",
        "a",
        "A",
        "ab",
        "abc",
        "abd",
        "b",
        "rust",
        "rust ",
        "playrust",
        "z",
        "\u{7f}",
        "\u{80}",
        "\u{e9}",
        "\u{e9}t\u{e9}",
        "\u{7ff}",
        "\u{800}",
        "\u{4e2d}\u{6587}",
        "\u{d7ff}",
        "\u{e000}",
        "\u{ffff}",
        "\u{10000}",
        "\u{1f600}",
        "\u{10ffff}",
        "a\u{10000}",
        "a\u{ffff}",
    ]
}

#[test]
fn str_eq_holds_of_equal_strings_only() {
    assert!(str_eq("", ""));
    assert!(str_eq("rust", "rust"));
    assert!(!str_eq("rust", "Rust"));
    assert!(!str_eq("rust", "rus"));
    assert!(!str_eq("rus", "rust"));
    assert!(!str_eq("", "a"));
    assert!(str_eq("\u{4e2d}\u{6587}", "\u{4e2d}\u{6587}"));
    assert!(!str_eq("\u{e9}", "e"));
}

#[test]
fn str_eq_agrees_with_the_equality_of_strings() {
    for a in samples() {
        for b in samples() {
            assert_eq!(str_eq(a, b), a == b);
        }
    }
}

#[test]
fn str_order_of_some_pairs() {
    assert_eq!(str_order("", ""), Ordering::Equal);
    assert_eq!(str_order("", "a"), Ordering::Less);
    assert_eq!(str_order("a", ""), Ordering::Greater);
    assert_eq!(str_order("abc", "abd"), Ordering::Less);
    assert_eq!(str_order("abd", "abc"), Ordering::Greater);
    assert_eq!(str_order("ab", "abc"), Ordering::Less);
    assert_eq!(str_order("abc", "ab"), Ordering::Greater);
    assert_eq!(str_order("Z", "a"), Ordering::Less);
    assert_eq!(str_order("rust", "rust"), Ordering::Equal);
    assert_eq!(str_order("\u{ffff}", "\u{10000}"), Ordering::Less);
    assert_eq!(str_order("z", "\u{e9}"), Ordering::Less);
}

#[test]
fn str_order_agrees_with_the_order_of_strings() {
    for a in samples() {
        for b in samples() {
            assert_eq!(str_order(a, b), a.cmp(b));
        }
    }
}
