use codecrafters_grep::re::pattern::{parse_pattern, Pattern};

#[test]
fn it_parses_lit() {
    let expr = "a";
    let parsed = parse_pattern(expr);
    assert_eq!(parsed.inner, vec![Pattern::Lit("a")]);
    assert_eq!(parsed.remaining, "");
}

#[test]
fn it_parses_alphanumeric() {
    let expr = "\\w";
    let parsed = parse_pattern(expr);
    assert_eq!(parsed.inner, vec![Pattern::AlphaNumeric]);
    assert_eq!(parsed.remaining, "");
}

#[test]
fn it_parses_digit() {
    let expr = "\\d";
    let parsed = parse_pattern(expr);
    assert_eq!(parsed.inner, vec![Pattern::Digit]);
    assert_eq!(parsed.remaining, "");
}

#[test]
fn it_parses_wildcard() {
    let expr = ".";
    let parsed = parse_pattern(expr);
    assert_eq!(parsed.inner, vec![Pattern::Wildcard]);
    assert_eq!(parsed.remaining, "");
}

#[test]
fn it_parses_positive_group() {
    let expr = "[abc]";
    let parsed = parse_pattern(expr);
    let expected = vec![Pattern::PGroup(vec![
        Pattern::Lit("a"),
        Pattern::Lit("b"),
        Pattern::Lit("c"),
    ])];
    assert_eq!(parsed.inner, expected);
    assert_eq!(parsed.remaining, "");
}

#[test]
fn it_parses_negative_group() {
    let expr = "[^xyz]";
    let parsed = parse_pattern(expr);
    let expected = vec![Pattern::NGroup(vec![
        Pattern::Lit("x"),
        Pattern::Lit("y"),
        Pattern::Lit("z"),
    ])];
    assert_eq!(parsed.inner, expected);
    assert_eq!(parsed.remaining, "");
}

#[test]
fn it_parses_more_than_one_pattern() {
    let expr = "\\w+";
    let parsed = parse_pattern(expr);
    let expected = vec![Pattern::MoreThanOne(Box::new(Pattern::AlphaNumeric))];
    assert_eq!(parsed.inner, expected);
    assert_eq!(parsed.remaining, "");

    let expr = "[abc]+";
    let parsed = parse_pattern(expr);
    let expected = vec![Pattern::MoreThanOne(Box::new(Pattern::PGroup(vec![
        Pattern::Lit("a"),
        Pattern::Lit("b"),
        Pattern::Lit("c"),
    ])))];
    assert_eq!(parsed.inner, expected);
    assert_eq!(parsed.remaining, "");
}

#[test]
fn it_parses_more_than_zero_pattern() {
    let expr = "\\w*";
    let parsed = parse_pattern(expr);
    let expected = vec![Pattern::MoreThanZero(Box::new(Pattern::AlphaNumeric))];
    assert_eq!(parsed.inner, expected);
    assert_eq!(parsed.remaining, "");

    let expr = "[abc]*";
    let parsed = parse_pattern(expr);
    let expected = vec![Pattern::MoreThanZero(Box::new(Pattern::PGroup(vec![
        Pattern::Lit("a"),
        Pattern::Lit("b"),
        Pattern::Lit("c"),
    ])))];
    assert_eq!(parsed.inner, expected);
    assert_eq!(parsed.remaining, "");
}

#[test]
fn it_parses_zero_or_one_pattern() {
    let expr = "\\w?";
    let parsed = parse_pattern(expr);
    let expected = vec![Pattern::ZeroOrOne(Box::new(Pattern::AlphaNumeric))];
    assert_eq!(parsed.inner, expected);
    assert_eq!(parsed.remaining, "");

    let expr = "[abc]?";
    let parsed = parse_pattern(expr);
    let expected = vec![Pattern::ZeroOrOne(Box::new(Pattern::PGroup(vec![
        Pattern::Lit("a"),
        Pattern::Lit("b"),
        Pattern::Lit("c"),
    ])))];
    assert_eq!(parsed.inner, expected);
    assert_eq!(parsed.remaining, "");
}

#[test]
fn it_parses_nested_group() {
    let expr = "[a[bc]]";
    let parsed = parse_pattern(expr);
    let expected = vec![Pattern::PGroup(vec![
        Pattern::Lit("a"),
        Pattern::PGroup(vec![Pattern::Lit("b"), Pattern::Lit("c")]),
    ])];
    assert_eq!(parsed.inner, expected);
    assert_eq!(parsed.remaining, "");

    let expr = "[a[^bc]]";
    let parsed = parse_pattern(expr);
    let expected = vec![Pattern::PGroup(vec![
        Pattern::Lit("a"),
        Pattern::NGroup(vec![Pattern::Lit("b"), Pattern::Lit("c")]),
    ])];
    assert_eq!(parsed.inner, expected);
    assert_eq!(parsed.remaining, "");
}

#[test]
fn it_parses_multiple_patterns() {
    let expr = "\\d apple";
    let parsed = parse_pattern(expr);
    let expected = vec![
        Pattern::Digit,
        Pattern::Lit(" "),
        Pattern::Lit("a"),
        Pattern::Lit("p"),
        Pattern::Lit("p"),
        Pattern::Lit("l"),
        Pattern::Lit("e"),
    ];
    assert_eq!(parsed.inner, expected);
    assert_eq!(parsed.remaining, "");
}

#[test]
fn it_parses_alternations() {
    let expr = "(cat|dog)";
    let parsed = parse_pattern(expr);
    let expected = vec![Pattern::Alternation(vec![
        vec![Pattern::Lit("c"), Pattern::Lit("a"), Pattern::Lit("t")],
        vec![Pattern::Lit("d"), Pattern::Lit("o"), Pattern::Lit("g")],
    ])];
    assert_eq!(parsed.inner, expected);
    assert_eq!(parsed.remaining, "");
}
