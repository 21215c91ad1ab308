use codecrafters_grep::re::pattern::{parse_pattern, Pattern, PatternChar};

#[test]
fn a_backslash_makes_a_literal_of_what_follows() {
    let parsed = parse_pattern("\\.\\\\\\[\\x");
    let expected =
        vec![Pattern::Lit("."), Pattern::Lit("\\"), Pattern::Lit("["), Pattern::Lit("x")];
    assert_eq!(parsed.inner, expected);
    assert_eq!(parsed.remaining, "");
    assert!(parsed.completed());
}

#[test]
fn a_backslash_at_the_end_is_not_read() {
    let parsed = parse_pattern("ab\\");
    assert_eq!(parsed.inner, vec![Pattern::Lit("a"), Pattern::Lit("b")]);
    assert_eq!(parsed.remaining, "\\");
    assert!(parsed.last_char.is_none());
    assert!(!parsed.completed());
}

#[test]
fn a_literal_keeps_its_grapheme_whole() {
    let parsed = parse_pattern("\u{e9}\\\u{1F5FB}");
    assert_eq!(parsed.inner, vec![Pattern::Lit("\u{e9}"), Pattern::Lit("\u{1F5FB}")]);
    assert!(parsed.completed());
}

#[test]
fn a_quantifier_wraps_the_pattern_in_front_of_it() {
    let parsed = parse_pattern("ab*c+d?");
    let expected = vec![
        Pattern::Lit("a"),
        Pattern::MoreThanZero(Box::new(Pattern::Lit("b"))),
        Pattern::MoreThanOne(Box::new(Pattern::Lit("c"))),
        Pattern::ZeroOrOne(Box::new(Pattern::Lit("d"))),
    ];
    assert_eq!(parsed.inner, expected);
    assert!(parsed.completed());

    let parsed = parse_pattern("a*?");
    let expected = vec![Pattern::ZeroOrOne(Box::new(Pattern::MoreThanZero(Box::new(
        Pattern::Lit("a"),
    ))))];
    assert_eq!(parsed.inner, expected);
    assert!(parsed.completed());

    let parsed = parse_pattern("(a|b)+");
    let expected = vec![Pattern::MoreThanOne(Box::new(Pattern::Alternation(vec![
        vec![Pattern::Lit("a")],
        vec![Pattern::Lit("b")],
    ])))];
    assert_eq!(parsed.inner, expected);
    assert!(parsed.completed());
}

#[test]
fn a_quantifier_with_nothing_in_front_of_it_is_not_read() {
    for expr in ["+", "*a", "?ab"] {
        let parsed = parse_pattern(expr);
        assert_eq!(parsed.inner, vec![]);
        assert_eq!(parsed.remaining, expr);
        assert!(parsed.last_char.is_none());
        assert!(!parsed.completed());
    }
    let parsed = parse_pattern("ab(+c)");
    assert_eq!(parsed.inner, vec![Pattern::Lit("a"), Pattern::Lit("b")]);
    assert_eq!(parsed.remaining, "(+c)");
    assert!(!parsed.completed());

    let parsed = parse_pattern("[*]");
    assert_eq!(parsed.inner, vec![]);
    assert_eq!(parsed.remaining, "[*]");

    let parsed = parse_pattern("(a|*)");
    assert_eq!(parsed.inner, vec![]);
    assert_eq!(parsed.remaining, "(a|*)");
}

#[test]
fn reading_stops_behind_a_closing_token() {
    let parsed = parse_pattern("a]b");
    assert_eq!(parsed.inner, vec![Pattern::Lit("a")]);
    assert_eq!(parsed.remaining, "b");
    assert!(matches!(parsed.last_char, Some(PatternChar::GroupClose)));
    assert!(!parsed.completed());

    let parsed = parse_pattern("a)b");
    assert_eq!(parsed.inner, vec![Pattern::Lit("a")]);
    assert_eq!(parsed.remaining, "b");
    assert!(matches!(parsed.last_char, Some(PatternChar::AltClose)));

    let parsed = parse_pattern("a|b");
    assert_eq!(parsed.inner, vec![Pattern::Lit("a")]);
    assert_eq!(parsed.remaining, "b");
    assert!(matches!(parsed.last_char, Some(PatternChar::AltDelimiter)));
}

#[test]
fn a_text_that_ends_with_a_closing_token_is_not_complete() {
    for expr in ["a]", "a)", "a|"] {
        let parsed = parse_pattern(expr);
        assert_eq!(parsed.inner, vec![Pattern::Lit("a")]);
        assert_eq!(parsed.remaining, "");
        assert!(parsed.last_char.is_some());
        assert!(!parsed.completed());
    }
}

#[test]
fn a_scope_that_is_not_closed_is_not_read() {
    for expr in ["[abc", "[^abc", "(cat|dog", "(cat", "[a(b]", "(a[b)", "[ab)", "(ab]", "[a|b]"] {
        let parsed = parse_pattern(expr);
        assert_eq!(parsed.inner, vec![]);
        assert_eq!(parsed.remaining, expr);
        assert!(parsed.last_char.is_none());
        assert!(!parsed.completed());
    }
    let parsed = parse_pattern("x[ab]y(c");
    let expected = vec![
        Pattern::Lit("x"),
        Pattern::PGroup(vec![Pattern::Lit("a"), Pattern::Lit("b")]),
        Pattern::Lit("y"),
    ];
    assert_eq!(parsed.inner, expected);
    assert_eq!(parsed.remaining, "(c");
}

#[test]
fn scopes_may_be_empty_and_nested() {
    let parsed = parse_pattern("[]()(|)");
    let expected = vec![
        Pattern::PGroup(vec![]),
        Pattern::Alternation(vec![vec![]]),
        Pattern::Alternation(vec![vec![], vec![]]),
    ];
    assert_eq!(parsed.inner, expected);
    assert!(parsed.completed());

    let parsed = parse_pattern("(a[^b(c|\\d)]|.)");
    let expected = vec![Pattern::Alternation(vec![
        vec![
            Pattern::Lit("a"),
            Pattern::NGroup(vec![
                Pattern::Lit("b"),
                Pattern::Alternation(vec![vec![Pattern::Lit("c")], vec![Pattern::Digit]]),
            ]),
        ],
        vec![Pattern::Wildcard],
    ])];
    assert_eq!(parsed.inner, expected);
    assert!(parsed.completed());
}

#[test]
fn a_caret_opens_a_negative_group_only_behind_the_bracket() {
    let parsed = parse_pattern("[a^]^");
    let expected = vec![
        Pattern::PGroup(vec![Pattern::Lit("a"), Pattern::Lit("^")]),
        Pattern::Lit("^"),
    ];
    assert_eq!(parsed.inner, expected);
    let parsed = parse_pattern("[^^]$");
    let expected = vec![Pattern::NGroup(vec![Pattern::Lit("^")]), Pattern::Lit("$")];
    assert_eq!(parsed.inner, expected);
}

#[test]
fn the_empty_text_is_complete() {
    let parsed = parse_pattern("");
    assert_eq!(parsed.inner, vec![]);
    assert_eq!(parsed.remaining, "");
    assert!(parsed.completed());
    assert_eq!(parsed.patterns(), vec![]);
}

#[test]
fn patterns_hands_out_what_was_read() {
    let parsed = parse_pattern("a.");
    assert_eq!(parsed.patterns(), vec![Pattern::Lit("a"), Pattern::Wildcard]);
}

#[test]
fn pick_reads_one_token() {
    assert!(matches!(PatternChar::pick(""), None));
    assert!(matches!(PatternChar::pick("\\"), None));
    assert!(matches!(
        PatternChar::pick("\\wx"),
        Some((PatternChar::Itself(Pattern::AlphaNumeric), "x"))
    ));
    assert!(matches!(
        PatternChar::pick("\\dx"),
        Some((PatternChar::Itself(Pattern::Digit), "x"))
    ));
    assert!(matches!(
        PatternChar::pick("\\+x"),
        Some((PatternChar::Itself(Pattern::Lit("+")), "x"))
    ));
    assert!(matches!(
        PatternChar::pick(".x"),
        Some((PatternChar::Itself(Pattern::Wildcard), "x"))
    ));
    assert!(matches!(PatternChar::pick("[x"), Some((PatternChar::PGroupOpen, "x"))));
    assert!(matches!(PatternChar::pick("["), Some((PatternChar::PGroupOpen, ""))));
    assert!(matches!(PatternChar::pick("[^x"), Some((PatternChar::NGroupOpen, "x"))));
    assert!(matches!(PatternChar::pick("]x"), Some((PatternChar::GroupClose, "x"))));
    assert!(matches!(PatternChar::pick("+x"), Some((PatternChar::MoreThanOne, "x"))));
    assert!(matches!(PatternChar::pick("*x"), Some((PatternChar::MoreThanZero, "x"))));
    assert!(matches!(PatternChar::pick("?x"), Some((PatternChar::ZeroOrOne, "x"))));
    assert!(matches!(PatternChar::pick("(x"), Some((PatternChar::AltOpen, "x"))));
    assert!(matches!(PatternChar::pick(")x"), Some((PatternChar::AltClose, "x"))));
    assert!(matches!(PatternChar::pick("|x"), Some((PatternChar::AltDelimiter, "x"))));
    assert!(matches!(
        PatternChar::pick("\u{e9}x"),
        Some((PatternChar::Itself(Pattern::Lit("\u{e9}")), "x"))
    ));
}
