use rsgrep::report::{exit_code, is_hidden_name, should_prefix};
use rsgrep::{
    char_to_byte, check_multiples_matching_patterns, check_only_matching_patterns, check_pattern,
    highlight_matches_in_line, parse_args, search_file, search_lines, use_color, Config,
};

fn args(list: &[&str]) -> Vec<String> {
    list.iter().map(|s| s.to_string()).collect()
}

fn usage() -> String {
    String::from("Usage: prog [--color[=WHEN]] [-r] [-o [-P]] -E <pattern> [file...]")
}

fn config(pattern: &str) -> Config {
    Config {
        pattern: pattern.to_string(),
        filenames: Vec::new(),
        color_mode: String::from("never"),
        recursive: false,
        only_matching: false,
        multi_line: false,
        debug: false,
    }
}

#[test]
fn parse_args_reads_pattern_and_files() {
    let c = parse_args(&args(&["prog", "-E", "a+", "x.txt", "y.txt"])).unwrap();
    assert_eq!(c.pattern, "a+");
    assert_eq!(c.filenames, vec!["x.txt", "y.txt"]);
    assert_eq!(c.color_mode, "never");
    assert!(!c.recursive && !c.only_matching && !c.multi_line && !c.debug);
}

#[test]
fn parse_args_reads_options() {
    let c = parse_args(&args(&["prog", "--color", "-r", "-o", "-P", "--debug", "-E", "a"])).unwrap();
    assert_eq!(c.color_mode, "always");
    assert!(c.recursive && c.only_matching && c.multi_line && c.debug);
    assert!(c.filenames.is_empty());
    let c = parse_args(&args(&["prog", "--color=auto", "-E", "a"])).unwrap();
    assert_eq!(c.color_mode, "auto");
    let c = parse_args(&args(&["prog", "--color=always", "--color=never", "-E", "a"])).unwrap();
    assert_eq!(c.color_mode, "never");
}

#[test]
fn parse_args_all_matches_needs_only_matching_first() {
    let c = parse_args(&args(&["prog", "-P", "-o", "-E", "a"])).unwrap();
    assert!(c.only_matching && !c.multi_line);
}

#[test]
fn parse_args_takes_everything_behind_the_pattern_as_files() {
    let c = parse_args(&args(&["prog", "-E", "a", "-r", "-o"])).unwrap();
    assert_eq!(c.filenames, vec!["-r", "-o"]);
    assert!(!c.recursive && !c.only_matching);
}

#[test]
fn parse_args_usage_errors() {
    assert_eq!(parse_args(&args(&["prog"])).unwrap_err(), usage());
    assert_eq!(parse_args(&args(&["prog", "-r"])).unwrap_err(), usage());
    assert_eq!(parse_args(&args(&["prog", "-E"])).unwrap_err(), usage());
    assert_eq!(parse_args(&args(&["prog", "-E", ""])).unwrap_err(), usage());
    assert_eq!(parse_args(&args(&["prog", "-x", "-E", "a"])).unwrap_err(), usage());
    assert_eq!(parse_args(&args(&["prog", "file", "-E", "a"])).unwrap_err(), usage());
}

#[test]
fn highlight_wraps_each_match() {
    assert_eq!(
        highlight_matches_in_line("a12 b345 c", "\\d+"),
        "a\x1b[1;31m12\x1b[0m b\x1b[1;31m345\x1b[0m c"
    );
    assert_eq!(highlight_matches_in_line("abc", "x"), "abc");
    assert_eq!(highlight_matches_in_line("aXa", "^a"), "\x1b[1;31ma\x1b[0mXa");
    assert_eq!(highlight_matches_in_line("aXa", "a$"), "aX\x1b[1;31ma\x1b[0m");
    assert_eq!(highlight_matches_in_line("日本語", "本"), "日\x1b[1;31m本\x1b[0m語");
    assert_eq!(highlight_matches_in_line("", "a*"), "");
}

#[test]
fn highlight_goes_on_behind_an_empty_match() {
    assert_eq!(
        highlight_matches_in_line("ba", "a*"),
        "\x1b[1;31m\x1b[0mb\x1b[1;31ma\x1b[0m"
    );
}

#[test]
fn check_pattern_gives_the_line_or_nothing() {
    let c = config("o");
    assert_eq!(check_pattern("dog", "o", false, None, &c), Some(String::from("dog")));
    assert_eq!(check_pattern("dog", "o", false, Some("f.txt"), &c), Some(String::from("f.txt:dog")));
    assert_eq!(
        check_pattern("dog", "o", true, Some("f.txt"), &c),
        Some(String::from("f.txt:d\x1b[1;31mo\x1b[0mg"))
    );
    assert_eq!(check_pattern("dog", "x", true, Some("f.txt"), &c), None);
    assert_eq!(check_pattern("", "^$", false, None, &c), Some(String::new()));
}

#[test]
fn only_matching_lists_each_match() {
    assert_eq!(check_only_matching_patterns("a12 b345 c", "\\d+", false, None), vec!["12", "345"]);
    assert_eq!(
        check_only_matching_patterns("a12 b345", "\\d+", true, Some("f")),
        vec!["f:\x1b[1;31m12\x1b[0m", "f:\x1b[1;31m345\x1b[0m"]
    );
    assert!(check_only_matching_patterns("abc", "\\d", false, None).is_empty());
    assert_eq!(check_multiples_matching_patterns("aaa", "a", false, Some("f")), vec!["f:a", "f:a", "f:a"]);
}

#[test]
fn colour_follows_the_mode() {
    assert!(use_color("always", false));
    assert!(use_color("always", true));
    assert!(use_color("auto", true));
    assert!(!use_color("auto", false));
    assert!(!use_color("never", true));
    assert!(!use_color("sometimes", true));
}

#[test]
fn search_lines_reports_line_by_line() {
    let c = config("o+");
    let (any, entries) = search_lines("dog\ncat\r\nfoo\n", &c, None, false);
    assert!(any);
    assert_eq!(entries, vec!["dog", "foo"]);
    let (any, entries) = search_lines("dog\ncat", &c, Some("f"), true);
    assert!(any);
    assert_eq!(entries, vec!["f:d\x1b[1;31mo\x1b[0mg"]);
    let (any, entries) = search_lines("cat\nbird", &c, None, false);
    assert!(!any);
    assert!(entries.is_empty());
    let (any, entries) = search_lines("", &c, None, false);
    assert!(!any);
    assert!(entries.is_empty());
}

#[test]
fn search_lines_strips_one_carriage_return_before_a_line_feed() {
    let c = config("x$");
    let (_, entries) = search_lines("ax\r\nbx\r\r\ncx\r", &c, None, false);
    assert_eq!(entries, vec!["ax"]);
    let c = config("^$");
    let (any, entries) = search_lines("\n\na\n", &c, None, false);
    assert!(any);
    assert_eq!(entries, vec!["", ""]);
}

#[test]
fn search_lines_in_only_matching_mode() {
    let mut c = config("\\d+");
    c.only_matching = true;
    let (any, entries) = search_lines("a1b22\nxyz\n333", &c, Some("f"), false);
    assert!(any);
    assert_eq!(entries, vec!["f:1", "f:22", "f:333"]);
    c.only_matching = false;
    c.multi_line = true;
    let (any, entries) = search_lines("xyz", &c, None, false);
    assert!(!any);
    assert!(entries.is_empty());
}

#[test]
fn small_rules() {
    assert!(is_hidden_name(".git"));
    assert!(!is_hidden_name("src"));
    assert!(!is_hidden_name(""));
    assert!(should_prefix(2, false));
    assert!(should_prefix(1, true));
    assert!(!should_prefix(1, false));
    assert!(!should_prefix(0, false));
    assert_eq!(exit_code(true), 0);
    assert_eq!(exit_code(false), 1);
}

#[test]
fn char_offsets_become_byte_offsets() {
    assert_eq!(char_to_byte("abc", 0), 0);
    assert_eq!(char_to_byte("abc", 2), 2);
    assert_eq!(char_to_byte("aé", 2), 3);
    assert_eq!(char_to_byte("日本語", 1), 3);
    assert_eq!(char_to_byte("😀x", 1), 4);
    assert_eq!(char_to_byte("ab", 5), 2);
    assert_eq!(char_to_byte("", 3), 0);
    let line = "日本語";
    assert_eq!(&line[char_to_byte(line, 1)..char_to_byte(line, 2)], "本");
}

#[test]
fn search_file_colours_by_mode() {
    let mut c = config("o");
    let (any, entries) = search_file("dog\ncat", &c, None);
    assert!(any);
    assert_eq!(entries, vec!["dog"]);
    c.color_mode = String::from("always");
    let (any, entries) = search_file("dog\ncat", &c, Some("f"));
    assert!(any);
    assert_eq!(entries, vec!["f:d\x1b[1;31mo\x1b[0mg"]);
    c.color_mode = String::from("auto");
    let (any, entries) = search_file("cat", &c, None);
    assert!(!any);
    assert!(entries.is_empty());
}
