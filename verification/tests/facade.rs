use codecrafters_grep::re::Regex;
use codecrafters_grep::{match_pattern, Args, Error};

#[test]
fn a_scope_that_is_not_closed_is_an_invalid_pattern() {
    for expr in ["[abc", "[^abc", "(cat|dog", "(cat", "a[b", "a(b", "^[a$", "[a(b]", "(a[b)"] {
        assert_eq!(Regex::new(expr).err(), Some(Error::InvalidPattern));
    }
}

#[test]
fn a_closing_token_without_its_scope_is_an_invalid_pattern() {
    for expr in ["a]", "a)", "a|b", "]", ")", "|", "a]b", "[a)", "(a]", "[a|b]", "(a))"] {
        assert_eq!(Regex::new(expr).err(), Some(Error::InvalidPattern));
    }
}

#[test]
fn a_quantifier_with_nothing_in_front_of_it_is_an_invalid_pattern() {
    for expr in ["+", "*", "?", "+a", "^*", "^+$", "(+a)", "[?]", "(a|*b)"] {
        assert_eq!(Regex::new(expr).err(), Some(Error::InvalidPattern));
    }
}

#[test]
fn a_backslash_at_the_end_is_an_invalid_pattern() {
    // a `$` at the end is the anchor, also behind a backslash
    for expr in ["\\", "a\\", "a\\$", "\\$", "^\\"] {
        assert_eq!(Regex::new(expr).err(), Some(Error::InvalidPattern));
    }
    assert!(Regex::new("\\\\").is_ok());
    assert!(Regex::new("\\$a").unwrap().is_match("x$a"));
}

#[test]
fn the_error_has_a_message() {
    assert_eq!(Error::InvalidPattern.message(), "invalid pattern");
}

#[test]
fn the_same_text_compiles_to_the_same_regex() {
    for expr in ["", "^a.c$", "[^abc]+x", "(cat|dog)s?", "\\d\\w"] {
        let first = Regex::new(expr).unwrap();
        let second = Regex::new(expr).unwrap();
        assert_eq!(first, second);
        for line in ["", "abc", "xcat", "dogs", "1a", "\u{1F5FB}x"] {
            assert_eq!(first.is_match(line), second.is_match(line));
            assert_eq!(first.is_match(line), first.is_match(line));
        }
    }
    assert_ne!(Regex::new("^a").unwrap(), Regex::new("a").unwrap());
    assert_ne!(Regex::new("a$").unwrap(), Regex::new("a").unwrap());
}

#[test]
fn an_escaped_digit_class_occurs_where_a_digit_stands() {
    let r = Regex::new("\\d").unwrap();
    for line in ["0", "abc9", "\u{e9}5\u{e9}", "7\u{1F5FB}"] {
        assert!(r.is_match(line));
    }
    for line in ["", "abc", "\u{663}", "\u{1F5FB}"] {
        assert!(!r.is_match(line));
    }
}

#[test]
fn a_positive_group_occurs_where_a_member_stands() {
    let r = Regex::new("[abc]").unwrap();
    for line in ["a", "xxb", "\u{e9}c\u{e9}"] {
        assert!(r.is_match(line));
    }
    for line in ["", "xyz", "ABC", "\u{1F5FB}"] {
        assert!(!r.is_match(line));
    }
}

#[test]
fn a_negative_group_occurs_where_another_grapheme_stands() {
    let r = Regex::new("[^abc]").unwrap();
    for line in ["d", "abcd", "aXb", "\u{e9}", "ab\u{1F5FB}"] {
        assert!(r.is_match(line));
    }
    for line in ["a", "abc", "cabbac"] {
        assert!(!r.is_match(line));
    }
}

#[test]
fn a_negative_group_occurs_in_the_empty_line() {
    assert!(Regex::new("[^abc]").unwrap().is_match(""));
    assert!(!Regex::new("[^abc]$").unwrap().is_match(""));
    assert!(!Regex::new("[abc]").unwrap().is_match(""));
}

#[test]
fn the_wildcard_occurs_in_every_line_that_is_not_empty() {
    let r = Regex::new(".").unwrap();
    for line in ["a", " ", "\u{e9}", "\u{2208}", "\u{1F5FB}", "xyz"] {
        assert!(r.is_match(line));
    }
    assert!(!r.is_match(""));
    let whole = Regex::new("^.$").unwrap();
    for line in ["a", "\u{e9}", "\u{2208}", "\u{1F5FB}"] {
        assert!(whole.is_match(line));
    }
    assert!(!whole.is_match("ab"));
    assert!(!whole.is_match(""));
}

#[test]
fn a_literal_pattern_occurs_where_it_stands_at_its_first_candidate() {
    let r = Regex::new("ab").unwrap();
    assert!(r.is_match("ab"));
    assert!(r.is_match("xxabxx"));
    assert!(r.is_match("xabab"));
    assert!(!r.is_match("ba"));
    assert!(!r.is_match(""));
    // the one attempt is made at the first `a`
    assert!(!r.is_match("aab"));
    assert!(!r.is_match("acab"));
    let r = Regex::new("\u{e9}t\u{e9}").unwrap();
    assert!(r.is_match("l'\u{e9}t\u{e9}"));
    assert!(!r.is_match("l'ete"));
}

#[test]
fn the_empty_pattern_occurs_nowhere() {
    let r = Regex::new("").unwrap();
    assert!(!r.is_match(""));
    assert!(!r.is_match("abc"));
    let r = Regex::new("$").unwrap();
    assert!(!r.is_match(""));
    assert!(!r.is_match("abc"));
}

#[test]
fn anchors_alone_match_the_empty_line() {
    let r = Regex::new("^$").unwrap();
    assert!(r.is_match(""));
    assert!(!r.is_match("a"));
    let r = Regex::new("^").unwrap();
    assert!(r.is_match(""));
    assert!(r.is_match("a"));
}

#[test]
fn anchors_are_read_at_the_ends_of_the_text_only() {
    let r = Regex::new("a^b").unwrap();
    assert!(r.is_match("xa^b"));
    assert!(!r.is_match("ab"));
    let r = Regex::new("a$b").unwrap();
    assert!(r.is_match("a$b"));
    let r = Regex::new("^^a").unwrap();
    assert!(r.is_match("^a"));
    assert!(!r.is_match("a"));
    let r = Regex::new("a$$").unwrap();
    assert!(r.is_match("a$"));
    assert!(!r.is_match("a"));
    assert!(!r.is_match("a$b"));
}

#[test]
fn the_end_anchor_counts_bytes() {
    let r = Regex::new("\u{e9}$").unwrap();
    assert!(r.is_match("caf\u{e9}"));
    assert!(!r.is_match("caf\u{e9}s"));
    // a negative group takes one byte of the two
    let r = Regex::new("[^a]$").unwrap();
    assert!(r.is_match("b"));
    assert!(!r.is_match("\u{e9}"));
}

#[test]
fn a_run_in_front_of_a_literal_is_settled_by_the_literal() {
    let r = Regex::new("a*b").unwrap();
    assert!(r.is_match("aaab"));
    assert!(r.is_match("b"));
    assert!(!r.is_match("aaa"));
    let r = Regex::new("^a+b$").unwrap();
    assert!(r.is_match("aab"));
    assert!(!r.is_match("b"));
    assert!(!r.is_match("aabb"));
    // the `a` behind the run is found at the first `a`: nothing is left for the run
    let r = Regex::new("a*ab").unwrap();
    assert!(r.is_match("ab"));
    assert!(!r.is_match("aaab"));
}

#[test]
fn a_run_of_a_negative_group_ends_with_the_line() {
    let r = Regex::new("[^a]+").unwrap();
    assert!(r.is_match("b"));
    assert!(r.is_match("bcd"));
    assert!(r.is_match(""));
    assert!(!r.is_match("aaa"));
    let r = Regex::new("b[^a]*").unwrap();
    assert!(r.is_match("b"));
    assert!(r.is_match("bcd"));
}

#[test]
fn a_pattern_is_searched_in_each_line() {
    let lines = vec!["first".to_string(), "second 2".to_string(), "third".to_string()];
    assert_eq!(match_pattern(&lines, "\\d"), Ok(true));
    assert_eq!(match_pattern(&lines, "^third$"), Ok(true));
    assert_eq!(match_pattern(&lines, "fourth"), Ok(false));
    assert_eq!(match_pattern(&vec![], "a"), Ok(false));
    assert_eq!(match_pattern(&vec![], "^$"), Ok(false));
    assert_eq!(match_pattern(&vec![String::new()], "^$"), Ok(true));
}

#[test]
fn an_invalid_pattern_is_searched_in_no_line() {
    let lines = vec!["(".to_string()];
    assert_eq!(match_pattern(&lines, "("), Err(Error::InvalidPattern));
    assert_eq!(match_pattern(&vec![], "a)"), Err(Error::InvalidPattern));
}

#[test]
fn arguments_hold_the_mode_and_the_pattern() {
    let args = Args { extend: true, pattern: "\\d+".to_string() };
    assert!(args.extend);
    assert_eq!(args.pattern, "\\d+");
}
