use rsgrep::{split_top_level, tokenize};

fn shape(pattern: &str) -> String {
    format!("{:?}", tokenize(pattern))
}

#[test]
fn every_string_is_a_pattern() {
    for pattern in ["", "\\", "(", ")", "[", "]", "{", "}", "a{", "a{1,", "(a|", "[^", "\\9x", "(()", "|", "+*?"] {
        let _ = tokenize(pattern);
    }
}

#[test]
fn plain_characters_are_literals() {
    assert_eq!(shape("ab"), "[Literal('a'), Literal('b')]");
    assert_eq!(shape(")"), "[Literal(')')]");
    assert_eq!(shape("|"), "[Literal('|')]");
    assert_eq!(shape("}"), "[Literal('}')]");
}

#[test]
fn anchors_and_wildcard() {
    assert_eq!(shape("^.$"), "[StartAnchor, WildCard, EndAnchor]");
}

#[test]
fn group_without_alternation_holds_its_tokens() {
    assert_eq!(shape("(ab)"), "[CaptureGroup(0, [Literal('a'), Literal('b')])]");
    assert_eq!(shape("()"), "[CaptureGroup(0, [])]");
    assert_eq!(shape("(a"), "[CaptureGroup(0, [Literal('a')])]");
}

#[test]
fn group_with_top_level_bar_holds_an_alternation() {
    assert_eq!(
        shape("(a|bc)"),
        "[CaptureGroup(0, [Alternation([[Literal('a')], [Literal('b'), Literal('c')]])])]"
    );
    assert_eq!(shape("(a|)"), "[CaptureGroup(0, [Alternation([[Literal('a')], []])])]");
}

#[test]
fn nested_bar_is_not_top_level() {
    assert_eq!(
        shape("((a|b))"),
        "[CaptureGroup(0, [CaptureGroup(0, [Alternation([[Literal('a')], [Literal('b')]])])])]"
    );
}

#[test]
fn quantifier_wraps_the_token_before_it() {
    assert_eq!(
        shape("(a)+"),
        "[Quantifier(CaptureGroup(0, [Literal('a')]), OneOrMore)]"
    );
    assert_eq!(shape("[ab]*"), "[Quantifier(CharGroup(['a', 'b']), ZeroOrMore)]");
    assert_eq!(shape("a+?"), "[Quantifier(Literal('a'), OneOrMore), Literal('?')]");
}

#[test]
fn backreference_takes_all_its_digits() {
    assert_eq!(shape("\\10"), "[BackReference(10)]");
    assert_eq!(shape("\\1a"), "[BackReference(1), Literal('a')]");
    assert_eq!(shape("\\007"), "[BackReference(7)]");
    assert_eq!(shape("\\00"), "[Literal('0')]");
    assert_eq!(shape("\\99999999999999999999999999"), "[Literal('9')]");
}

#[test]
fn brace_forms() {
    assert_eq!(shape("a{0}"), "[ExactRepetition(Literal('a'), 0)]");
    assert_eq!(shape("a{2"), "[ExactRepetition(Literal('a'), 2)]");
    assert_eq!(shape("a{2,"), "[RangeRepetition(Literal('a'), 2, None)]");
    assert_eq!(shape("a{1,2,3}"), "[RangeRepetition(Literal('a'), 2, Some(3))]");
    assert_eq!(shape("a{3,1}"), "[RangeRepetition(Literal('a'), 3, Some(1))]");
    assert_eq!(shape("a{2,x}b"), "[Literal('{'), Literal('}'), Literal('b')]");
    assert_eq!(shape("a{2x}"), "[Literal('{'), Literal('}')]");
}

#[test]
fn split_top_level_respects_parentheses() {
    assert_eq!(split_top_level("a|b", '|'), vec!["a", "b"]);
    assert_eq!(split_top_level("a|(b|c)|d", '|'), vec!["a", "(b|c)", "d"]);
    assert_eq!(split_top_level("", '|'), vec![""]);
    assert_eq!(split_top_level("|", '|'), vec!["", ""]);
    assert_eq!(split_top_level("(a|b", '|'), vec!["(a|b"]);
    assert_eq!(split_top_level("a)|b(|c", '|'), vec!["a)|b(", "c"]);
    assert_eq!(split_top_level("a,b", ','), vec!["a", "b"]);
}
