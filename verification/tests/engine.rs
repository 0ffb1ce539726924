use rsgrep::{
    assign_group_numbers, compile, find_all, match_pattern, matches_from_range, tokenize, Config,
    Token,
};

fn config() -> Config {
    Config {
        pattern: String::new(),
        filenames: Vec::new(),
        color_mode: String::from("never"),
        recursive: false,
        only_matching: false,
        multi_line: false,
        debug: false,
    }
}

fn matches(pattern: &str, input: &str) -> bool {
    match_pattern(input, pattern, &config())
}

fn run_at(pattern: &str, input: &str, at: usize) -> (Option<usize>, Vec<Option<String>>) {
    let tokens = compile(pattern);
    let chars: Vec<char> = input.chars().collect();
    let mut captures: Vec<Option<String>> = Vec::new();
    let r = matches_from_range(&chars, &tokens, at, None, &mut captures);
    (r, captures)
}

fn found(pattern: &str, input: &str) -> Vec<String> {
    let tokens = compile(pattern);
    let chars: Vec<char> = input.chars().collect();
    find_all(input, &tokens).into_iter().map(|(a, b)| chars[a..b].iter().collect()).collect()
}

#[test]
fn literal_ch_matching_match_single_literal_ch() {
    assert!(matches("d", "dog"));
    assert!(!matches("f", "dog"));
}

#[test]
fn literal_dg_matching_match_single_literal_ch() {
    assert!(matches("\\d", "123"));
    assert!(!matches("\\d", "apple"));
    assert!(matches("\\d", "abc_0_xyz"));
}

#[test]
fn word_matching_match_single_literal_ch() {
    assert!(matches("\\w", "apple"));
    assert!(matches("\\w", "BLUEBERRY"));
    assert!(matches("\\w", "369"));
    assert!(matches("\\w", "=%+_×#%"));
    assert!(!matches("\\w", "#%=-÷×"));
}

#[test]
fn alternation_in_group_captures_branch() {
    assert!(matches("(cat|dog)s", "cats"));
    let (r, caps) = run_at("(cat|dog)s", "cats", 0);
    assert_eq!(r, Some(4));
    assert_eq!(caps, vec![Some(String::from("cat"))]);
}

#[test]
fn backreferences_follow_group_numbers() {
    assert!(matches("(a)(b)\\2\\1", "abba"));
    let (r, caps) = run_at("(a)(b)\\2\\1", "abba", 0);
    assert_eq!(r, Some(4));
    assert_eq!(caps, vec![Some(String::from("a")), Some(String::from("b"))]);
    assert!(!matches("(a)(b)\\2\\1", "abab"));
}

#[test]
fn range_repetition_is_greedy() {
    assert!(matches("a{2,3}", "aaaa"));
    assert_eq!(run_at("a{2,3}", "aaaa", 0).0, Some(3));
    assert_eq!(run_at("a{2,}", "aaaa", 0).0, Some(4));
    assert_eq!(run_at("a{2,3}", "a", 0).0, None);
}

#[test]
fn anchors_pin_both_ends() {
    assert!(matches("^foo$", "foo"));
    assert!(!matches("^foo$", " foo"));
    assert!(!matches("^foo$", "foo "));
}

#[test]
fn empty_pattern_matches_at_offset_zero() {
    assert!(tokenize("").is_empty());
    assert!(matches("", "anything"));
    assert!(matches("", ""));
    assert_eq!(run_at("", "abc", 0).0, Some(0));
}

#[test]
fn start_end_matches_only_empty_input() {
    assert!(matches("^$", ""));
    assert!(!matches("^$", "a"));
    assert!(!matches("^$", "\n"));
}

#[test]
fn zero_repetitions_consume_nothing() {
    assert_eq!(run_at("a{0}", "aaa", 0).0, Some(0));
    assert_eq!(run_at("a{0}", "bbb", 1).0, Some(0));
    assert_eq!(run_at("a{0}", "", 0).0, Some(0));
}

#[test]
fn class_ends_at_first_closing_bracket() {
    let tokens = tokenize("[]a]");
    assert_eq!(format!("{:?}", tokens), "[CharGroup([]), Literal('a'), Literal(']')]");
    let tokens = tokenize("[^ab]");
    assert_eq!(format!("{:?}", tokens), "[NegCharGroup(['a', 'b'])]");
    let tokens = tokenize("[a-c]");
    assert_eq!(format!("{:?}", tokens), "[CharGroup(['a', '-', 'c'])]");
}

#[test]
fn find_all_lists_matches_left_to_right() {
    assert_eq!(found("\\d+", "a12 b345 c"), vec!["12", "345"]);
    assert_eq!(found("a", "aaa"), vec!["a", "a", "a"]);
    assert_eq!(found("a*", "baa"), vec!["", "aa"]);
    assert_eq!(found("^a", "aa"), vec!["a"]);
    assert_eq!(found("a$", "aa"), vec!["a"]);
}

#[test]
fn greedy_quantifier_takes_the_longest_first() {
    assert_eq!(run_at("a+", "aaab", 0).0, Some(3));
    assert_eq!(run_at("a+a", "aaab", 0).0, Some(3));
    assert_eq!(run_at("a*", "b", 0).0, Some(0));
    assert_eq!(run_at("a+", "b", 0).0, None);
    assert_eq!(run_at("ca?t", "ct", 0).0, Some(2));
    assert_eq!(run_at("ca?t", "cat", 0).0, Some(3));
}

#[test]
fn failed_match_leaves_captures_alone() {
    let tokens = compile("(a)+b");
    let chars: Vec<char> = "aac".chars().collect();
    let mut captures = vec![Some(String::from("kept")), None];
    let r = matches_from_range(&chars, &tokens, 0, None, &mut captures);
    assert_eq!(r, None);
    assert_eq!(captures, vec![Some(String::from("kept")), None]);
}

#[test]
fn groups_are_numbered_in_source_order() {
    let mut tokens = tokenize("(a(b))(c)");
    let mut counter = 1;
    assign_group_numbers(&mut tokens, &mut counter);
    assert_eq!(counter, 4);
    assert_eq!(
        format!("{:?}", tokens),
        "[CaptureGroup(1, [Literal('a'), CaptureGroup(2, [Literal('b')])]), CaptureGroup(3, [Literal('c')])]"
    );
}

#[test]
fn only_the_first_branch_is_numbered() {
    let mut tokens = tokenize("((a)|(b))(c)");
    let mut counter = 1;
    assign_group_numbers(&mut tokens, &mut counter);
    assert_eq!(counter, 4);
    assert_eq!(
        format!("{:?}", tokens),
        "[CaptureGroup(1, [Alternation([[CaptureGroup(2, [Literal('a')])], [CaptureGroup(0, [Literal('b')])]])]), CaptureGroup(3, [Literal('c')])]"
    );
}

#[test]
fn tokenizer_reads_escapes_and_quantifiers() {
    assert_eq!(
        format!("{:?}", tokenize("\\d\\w\\.\\12a+b?c*.")),
        "[Digit, Word, Literal('.'), BackReference(12), Quantifier(Literal('a'), OneOrMore), Quantifier(Literal('b'), ZeroOrOne), Quantifier(Literal('c'), ZeroOrMore), WildCard]"
    );
    assert_eq!(format!("{:?}", tokenize("a\\")), "[Literal('a')]");
    assert_eq!(format!("{:?}", tokenize("\\0")), "[Literal('0')]");
    assert_eq!(
        format!("{:?}", tokenize("a{3}b{2,}c{1,4}")),
        "[ExactRepetition(Literal('a'), 3), RangeRepetition(Literal('b'), 2, None), RangeRepetition(Literal('c'), 1, Some(4))]"
    );
}

#[test]
fn spoiled_brace_becomes_a_literal() {
    assert_eq!(format!("{:?}", tokenize("a{x}")), "[Literal('{'), Literal('}')]");
    assert_eq!(format!("{:?}", tokenize("a{,5}")), "[Literal('{'), Literal('5'), Literal('}')]");
    assert_eq!(format!("{:?}", tokenize("a{}")), "[Literal('{')]");
    assert_eq!(
        format!("{:?}", tokenize("a{99999999999999999999999}")),
        "[Literal('{')]"
    );
}

#[test]
fn capture_backtracks_to_shorter_lengths() {
    let (r, caps) = run_at("(a*)a", "aaa", 0);
    assert_eq!(r, Some(3));
    assert_eq!(caps, vec![Some(String::from("aa"))]);
}

#[test]
fn token_clone_keeps_the_tree() {
    let tokens = compile("(a|b)+c{2}");
    let copy: Vec<Token> = tokens.iter().map(|t| t.clone()).collect();
    assert_eq!(format!("{:?}", tokens), format!("{:?}", copy));
}
