use rsgrep::{collect_all_match_lengths, compile, matches_from_range, single_matches, Token};

fn chars(s: &str) -> Vec<char> {
    s.chars().collect()
}

fn run(pattern: &str, input: &str, at: usize, before: Vec<Option<String>>) -> (Option<usize>, Vec<Option<String>>) {
    let tokens = compile(pattern);
    let mut captures = before;
    let r = matches_from_range(&chars(input), &tokens, at, None, &mut captures);
    (r, captures)
}

fn lengths(pattern: &str, input: &str, at: usize) -> Vec<usize> {
    let tokens = compile(pattern);
    collect_all_match_lengths(&chars(input), &tokens, at, None, &Vec::new())
}

fn text(s: &str) -> Option<String> {
    Some(String::from(s))
}

#[test]
fn single_matches_reads_the_first_character() {
    assert!(single_matches(&chars("7x"), &Token::Digit));
    assert!(!single_matches(&chars("x7"), &Token::Digit));
    assert!(single_matches(&chars("_"), &Token::Word));
    assert!(single_matches(&chars("Z"), &Token::Word));
    assert!(!single_matches(&chars("-"), &Token::Word));
    assert!(!single_matches(&chars("é"), &Token::Word));
    assert!(single_matches(&chars("a"), &Token::Literal('a')));
    assert!(!single_matches(&chars("b"), &Token::Literal('a')));
    assert!(single_matches(&chars("b"), &Token::CharGroup(vec!['a', 'b'])));
    assert!(!single_matches(&chars("c"), &Token::CharGroup(vec!['a', 'b'])));
    assert!(single_matches(&chars("c"), &Token::NegCharGroup(vec!['a', 'b'])));
    assert!(!single_matches(&chars("a"), &Token::NegCharGroup(vec!['a', 'b'])));
    assert!(single_matches(&chars("x"), &Token::WildCard));
    assert!(!single_matches(&chars("\n"), &Token::WildCard));
    assert!(single_matches(&chars("x"), &Token::StartAnchor));
    assert!(single_matches(&chars("x"), &Token::EndAnchor));
    assert!(!single_matches(&chars(""), &Token::WildCard));
}

#[test]
fn match_length_counts_characters_not_bytes() {
    assert_eq!(run("é+", "ééé!", 0, vec![]).0, Some(3));
    assert_eq!(run("(é)\\1", "éé", 0, vec![]), (Some(2), vec![text("é")]));
}

#[test]
fn anchors_are_positional() {
    assert_eq!(run("^a", "aa", 0, vec![]).0, Some(1));
    assert_eq!(run("^a", "aa", 1, vec![]).0, None);
    assert_eq!(run("a$", "aa", 1, vec![]).0, Some(1));
    assert_eq!(run("a$", "aa", 0, vec![]).0, None);
    assert_eq!(run("$", "aa", 2, vec![]).0, Some(0));
}

#[test]
fn alternation_takes_the_first_branch_that_fits() {
    let tokens = vec![Token::Alternation(vec![
        vec![Token::Literal('a')],
        vec![Token::Literal('a'), Token::Literal('b')],
    ])];
    let mut captures = Vec::new();
    assert_eq!(matches_from_range(&chars("ab"), &tokens, 0, None, &mut captures), Some(1));
    let tokens = vec![
        Token::Alternation(vec![
            vec![Token::Literal('a')],
            vec![Token::Literal('a'), Token::Literal('b')],
        ]),
        Token::Literal('c'),
    ];
    assert_eq!(matches_from_range(&chars("abc"), &tokens, 0, None, &mut captures), Some(3));
    assert_eq!(matches_from_range(&chars("xbc"), &tokens, 0, None, &mut captures), None);
}

#[test]
fn group_takes_the_longest_length_first() {
    assert_eq!(run("(a|ab)c", "abc", 0, vec![]), (Some(3), vec![text("ab")]));
    assert_eq!(run("(a|ab)", "ab", 0, vec![]), (Some(2), vec![text("ab")]));
    assert_eq!(run("(a|ab)b", "ab", 0, vec![]), (Some(2), vec![text("a")]));
    assert_eq!(run("(x|y)", "z", 0, vec![]).0, None);
}

#[test]
fn backreference_needs_a_capture() {
    assert_eq!(run("\\1", "a", 0, vec![]).0, None);
    assert_eq!(run("\\1", "a", 0, vec![None]).0, None);
    assert_eq!(run("\\1", "ab", 0, vec![text("a")]).0, Some(1));
    assert_eq!(run("\\1", "ab", 0, vec![text("b")]).0, None);
    assert_eq!(run("\\2b", "ab", 0, vec![None, text("a")]).0, Some(2));
    assert_eq!(run("\\1", "a", 1, vec![text("")]).0, Some(0));
}

#[test]
fn exact_repetition_needs_every_repetition() {
    assert_eq!(run("a{3}", "aaaa", 0, vec![]).0, Some(3));
    assert_eq!(run("a{3}", "aab", 0, vec![]).0, None);
    assert_eq!(run("(ab){2}", "abab", 0, vec![]), (Some(4), vec![text("ab")]));
}

#[test]
fn range_repetition_does_not_give_back() {
    assert_eq!(run("a{1,3}a", "aaa", 0, vec![]).0, None);
    assert_eq!(run("a{1,2}a", "aaa", 0, vec![]).0, Some(3));
    assert_eq!(run("a{3,1}", "aaaa", 0, vec![]).0, Some(3));
    assert_eq!(run("a{0,}b", "aab", 0, vec![]).0, Some(3));
}

#[test]
fn plus_and_star_give_back() {
    assert_eq!(run("a+ab", "aaab", 0, vec![]).0, Some(4));
    assert_eq!(run("a*a", "aaa", 0, vec![]).0, Some(3));
    assert_eq!(run(".*b", "abcb!", 0, vec![]).0, Some(4));
}

#[test]
fn failure_restores_captures_in_every_branch() {
    for pattern in ["(a)+b", "(a)*b", "(a)?b", "(a){2}b", "(a){1,2}b", "(a)b", "(a|b)c", "(a)\\1b"] {
        let before = vec![text("one"), None, text("three")];
        let (r, after) = run(pattern, "aac", 0, before.clone());
        assert_eq!(r, None, "{}", pattern);
        assert_eq!(after, before, "{}", pattern);
    }
}

#[test]
fn capture_vector_grows_on_demand() {
    let tokens = vec![Token::CaptureGroup(3, vec![Token::Literal('a')])];
    let mut captures = Vec::new();
    let r = matches_from_range(&chars("a"), &tokens, 0, None, &mut captures);
    assert_eq!(r, Some(1));
    assert_eq!(captures, vec![None, None, text("a")]);
}

#[test]
fn nested_groups_are_recorded() {
    assert_eq!(
        run("((a)(b))c", "abc", 0, vec![]),
        (Some(3), vec![text("ab"), text("a"), text("b")])
    );
}

#[test]
fn repetition_of_an_empty_match_ends() {
    assert_eq!(run("(a*)*", "aa", 0, vec![]).0, Some(2));
    assert_eq!(run("()+", "x", 0, vec![]).0, None);
    assert_eq!(run("()*x", "x", 0, vec![]).0, Some(1));
    assert_eq!(run("(a*){2,}b", "aab", 0, vec![]).0, Some(3));
}

#[test]
fn all_lengths_are_listed_in_order() {
    assert_eq!(lengths("a*", "aaa", 0), vec![0, 1, 2, 3]);
    assert_eq!(lengths("a+", "aaa", 0), vec![1, 2, 3]);
    assert_eq!(lengths("a?", "aaa", 0), vec![0, 1]);
    assert_eq!(lengths("a{1,2}", "aaa", 0), vec![1, 2]);
    assert_eq!(lengths("a{2}", "aaa", 0), vec![2]);
    assert_eq!(lengths("(a|ab)b*", "abb", 0), vec![1, 2, 3]);
    assert_eq!(lengths("x", "aaa", 0), Vec::<usize>::new());
    assert_eq!(lengths("", "aaa", 3), vec![0]);
    assert_eq!(lengths("a*a*", "aa", 0), vec![0, 1, 2]);
}

#[test]
fn unnumbered_group_records_nothing() {
    let tokens = vec![Token::CaptureGroup(0, vec![Token::Literal('a')])];
    let mut captures = Vec::new();
    let r = matches_from_range(&chars("a"), &tokens, 0, None, &mut captures);
    assert_eq!(r, Some(1));
    assert_eq!(captures, Vec::<Option<String>>::new());
}
