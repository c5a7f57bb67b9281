use drip::collections::{sorted_keys, sorted_members};
use drip::style::{push_colored_str, push_painted, push_str, render, Shade, Styled};
use drip::text::{decimal_text, join, push_repeated, same_text};
use std::collections::{BTreeMap, BTreeSet};

#[test]
fn numbers_in_decimal() {
    assert_eq!(decimal_text(0), "0");
    assert_eq!(decimal_text(9), "9");
    assert_eq!(decimal_text(10), "10");
    assert_eq!(decimal_text(u64::MAX), "18446744073709551615");
}

#[test]
fn texts_are_joined_and_repeated() {
    assert_eq!(join(&vec![], ", "), "");
    assert_eq!(join(&vec!["a".to_string()], ", "), "a");
    assert_eq!(join(&vec!["a".to_string(), "b".to_string()], ", "), "a, b");
    let mut out = "x".to_string();
    push_repeated(&mut out, '^', 3);
    assert_eq!(out, "x^^^");
    assert!(same_text("abc", "abc"));
    assert!(!same_text("abc", "abd"));
}

#[test]
fn keys_in_ascending_order() {
    let m: BTreeMap<u32, &str> = BTreeMap::from([(9, "a"), (1, "b"), (4, "c")]);
    assert_eq!(sorted_keys(&m), vec![1, 4, 9]);
    let s: BTreeSet<u32> = BTreeSet::from([3, 1, 2]);
    assert_eq!(sorted_members(&s), vec![1, 2, 3]);
}

#[test]
fn colored_pieces_show_their_text() {
    let mut parts: Vec<Styled> = vec![];
    push_str(&mut parts, "a");
    push_colored_str(&mut parts, "b", Shade::Red);
    let shown = render(&parts);
    assert!(shown == "ab" || shown == "a\u{1b}[31mb\u{1b}[0m");
}

#[test]
fn colors_in_colors_are_taken_up_again() {
    let mut inner: Vec<Styled> = vec![];
    push_str(&mut inner, "x");
    push_colored_str(&mut inner, "y", Shade::Green);
    push_str(&mut inner, "z");
    let mut parts: Vec<Styled> = vec![];
    push_painted(&mut parts, inner, Shade::Blue);
    let shown = render(&parts);
    assert!(
        shown == "xyz"
            || shown == "\u{1b}[34mx\u{1b}[32my\u{1b}[0m\u{1b}[34mz\u{1b}[0m"
    );
}
