use codecrafters_grep::re::text::{byte_len_of, prefix_to, same_text, suffix_at, suffix_from};

#[test]
fn the_length_of_a_text_is_counted_in_bytes() {
    assert_eq!(byte_len_of(""), 0);
    assert_eq!(byte_len_of("abc"), 3);
    assert_eq!(byte_len_of("a\u{e9}\u{2208}\u{1F5FB}"), 10);
}

#[test]
fn a_text_is_cut_between_graphemes_only() {
    let s = "a\u{e9}\u{1F5FB}";
    assert_eq!(suffix_from(s, 0), Some(s));
    assert_eq!(suffix_from(s, 1), Some("\u{e9}\u{1F5FB}"));
    assert_eq!(suffix_from(s, 2), None);
    assert_eq!(suffix_from(s, 3), Some("\u{1F5FB}"));
    assert_eq!(suffix_from(s, 4), None);
    assert_eq!(suffix_from(s, 5), None);
    assert_eq!(suffix_from(s, 6), None);
    assert_eq!(suffix_from(s, 7), Some(""));
    assert_eq!(suffix_from(s, 8), None);
    assert_eq!(suffix_from("", 0), Some(""));
    assert_eq!(suffix_from("", 1), None);

    assert_eq!(prefix_to(s, 0), Some(""));
    assert_eq!(prefix_to(s, 1), Some("a"));
    assert_eq!(prefix_to(s, 2), None);
    assert_eq!(prefix_to(s, 3), Some("a\u{e9}"));
    assert_eq!(prefix_to(s, 7), Some(s));
    assert_eq!(prefix_to(s, 8), None);

    assert_eq!(suffix_at(s, 3), "\u{1F5FB}");
    assert_eq!(suffix_at(s, 7), "");
}

#[test]
fn texts_are_the_same_where_their_graphemes_are() {
    assert!(same_text("", ""));
    assert!(same_text("a\u{e9}", "a\u{e9}"));
    assert!(!same_text("a", "b"));
    assert!(!same_text("a", "ab"));
    assert!(!same_text("ab", "a"));
    assert!(!same_text("e", "\u{e9}"));
}
