//! Searching a whole text: its lines, what is printed for each, and whether
//! any of them matched.

use vstd::prelude::*;
use crate::parser::matcher::matches_somewhere;
use crate::parser::tokenize::{pieces_view, strings_view};
use crate::render::{
    check_multiples_matching_patterns, check_only_matching_patterns, check_pattern, name_view, paint,
    shown, with_prefix,
};
use crate::search::{compiled, find_from, Config};
use crate::text::{chars_of, str_equals, string_of};

verus! {

/// `line` without the carriage return at its end, if it has one.
pub open spec fn strip_cr(line: Seq<char>) -> Seq<char> {
    if line.len() > 0 && line.last() == '\r' {
        line.drop_last()
    } else {
        line
    }
}

/// The lines of `s[i..]`, where `current` is the part of the first line that
/// lies before index `i`.
pub open spec fn lines_from(s: Seq<char>, i: int, current: Seq<char>) -> Seq<Seq<char>>
    decreases s.len() - i,
{
    if 0 <= i < s.len() {
        if s[i] == '\n' {
            seq![strip_cr(current)] + lines_from(s, i + 1, Seq::empty())
        } else {
            lines_from(s, i + 1, current.push(s[i]))
        }
    } else if current.len() > 0 {
        seq![current]
    } else {
        Seq::empty()
    }
}

/// The lines of `s`. A line ends with a line feed, which does not belong to
/// it, nor does a carriage return just before the line feed. What stands
/// behind the last line feed is a line too, unless it is empty.
pub open spec fn lines_of(s: Seq<char>) -> Seq<Seq<char>> {
    lines_from(s, 0, Seq::empty())
}

/// Splits `content` into its lines.
pub fn split_lines(content: &[char]) -> (lines: Vec<Vec<char>>)
    ensures
        pieces_view(lines@) == lines_of(content@),
{
    let mut lines: Vec<Vec<char>> = Vec::new();
    let mut current: Vec<char> = Vec::new();
    let mut i: usize = 0;
    assert(pieces_view(lines@) + lines_from(content@, 0, current@) =~= lines_of(content@));
    while i < content.len()
        invariant
            i <= content.len(),
            lines_of(content@) == pieces_view(lines@) + lines_from(content@, i as int, current@),
        decreases content.len() - i,
    {
        let c = content[i];
        if c == '\n' {
            let ghost before = pieces_view(lines@);
            let ghost whole = current@;
            if current.len() > 0 && current[current.len() - 1] == '\r' {
                current.pop();
            }
            assert(current@ =~= strip_cr(whole));
            let ghost line = current@;
            lines.push(current);
            current = Vec::new();
            assert(pieces_view(lines@) =~= before + seq![line]);
            assert(pieces_view(lines@) + lines_from(content@, i + 1, current@) =~= before + (seq![line]
                + lines_from(content@, i + 1, Seq::empty())));
        } else {
            current.push(c);
        }
        i += 1;
    }
    if current.len() > 0 {
        let ghost before = pieces_view(lines@);
        let ghost line = current@;
        lines.push(current);
        assert(pieces_view(lines@) =~= before + seq![line]);
    } else {
        assert(pieces_view(lines@) + Seq::<Seq<char>>::empty() =~= pieces_view(lines@));
    }
    lines
}

/// Whether matches are shown in colour: always in the mode `always`, in the
/// mode `auto` if standard output is a terminal, and never otherwise.
pub open spec fn colour_on(color_mode: Seq<char>, stdout_is_tty: bool) -> bool {
    color_mode == "always"@ || (color_mode == "auto"@ && stdout_is_tty)
}

/// Whether matches are shown in colour.
pub fn use_color(color_mode: &str, stdout_is_tty: bool) -> (on: bool)
    ensures
        on == colour_on(color_mode@, stdout_is_tty),
{
    if str_equals(color_mode, "always") {
        true
    } else if str_equals(color_mode, "auto") {
        stdout_is_tty
    } else {
        false
    }
}

/// Asks `atty::is` for `atty::Stream::Stdout`: whether standard output is a
/// terminal. Taken on trust, and nothing is claimed of the answer: it depends
/// on how the process was started.
#[verifier::external_body]
fn stdout_is_terminal() -> bool {
    atty::is(atty::Stream::Stdout)
}

/// The file name and the settings that decide what is printed for a line.
pub struct Mode {
    pub pattern: Seq<char>,
    pub filename: Option<Seq<char>>,
    pub is_colored: bool,
    pub only_matches: bool,
}

/// The entries printed for one line.
pub open spec fn line_output(line: Seq<char>, mode: Mode) -> Seq<Seq<char>> {
    let spans = find_from(line, compiled(mode.pattern), 0);
    if mode.only_matches {
        Seq::new(spans.len(), |i: int| shown(line, spans[i], mode.is_colored, mode.filename))
    } else if matches_somewhere(line, compiled(mode.pattern)) {
        seq![with_prefix(mode.filename, if mode.is_colored { paint(line, spans, 0, 0) } else { line })]
    } else {
        Seq::empty()
    }
}

/// Whether a line counts as matched: in the ordinary mode if the pattern
/// matches somewhere in it, else if a match is shown for it.
pub open spec fn line_matched(line: Seq<char>, mode: Mode) -> bool {
    if mode.only_matches {
        find_from(line, compiled(mode.pattern), 0).len() > 0
    } else {
        matches_somewhere(line, compiled(mode.pattern))
    }
}

/// The entries printed for the lines from index `k` on, line after line.
pub open spec fn output_from(lines: Seq<Seq<char>>, k: int, mode: Mode) -> Seq<Seq<char>>
    decreases lines.len() - k,
{
    if 0 <= k < lines.len() {
        line_output(lines[k], mode) + output_from(lines, k + 1, mode)
    } else {
        Seq::empty()
    }
}

/// Whether one of the lines counts as matched.
pub open spec fn any_matched(lines: Seq<Seq<char>>, mode: Mode) -> bool {
    exists|k: int| 0 <= k < lines.len() && #[trigger] line_matched(lines[k], mode)
}

/// The mode of a search with the settings `config`.
pub open spec fn mode_of(config: Config, filename: Option<&str>, is_colored: bool) -> Mode {
    Mode {
        pattern: config.pattern@,
        filename: name_view(filename),
        is_colored,
        only_matches: config.multi_line || config.only_matching,
    }
}

/// Searches the lines of `content`: whether any line matched, and the
/// entries to print, in order.
pub fn search_lines(content: &str, config: &Config, filename: Option<&str>, is_colored: bool) -> (r: (
    bool,
    Vec<String>,
))
    requires
        config.pattern@.len() < usize::MAX,
    ensures
        r.0 == any_matched(lines_of(content@), mode_of(*config, filename, is_colored)),
        strings_view(r.1@) == output_from(
            lines_of(content@),
            0,
            mode_of(*config, filename, is_colored),
        ),
{
    let chars = chars_of(content);
    let lines = split_lines(chars.as_slice());
    let ghost mode = mode_of(*config, filename, is_colored);
    let ghost all = lines_of(content@);
    let mut matched_any = false;
    let mut printed: Vec<String> = Vec::new();
    let mut k: usize = 0;
    assert(strings_view(printed@) + output_from(all, 0, mode) =~= output_from(all, 0, mode));
    while k < lines.len()
        invariant
            k <= lines.len(),
            config.pattern@.len() < usize::MAX,
            all == pieces_view(lines@),
            mode == mode_of(*config, filename, is_colored),
            matched_any == (exists|j: int| 0 <= j < k && #[trigger] line_matched(all[j], mode)),
            output_from(all, 0, mode) == strings_view(printed@) + output_from(all, k as int, mode),
        decreases lines.len() - k,
    {
        let line = string_of(lines[k].as_slice(), 0, lines[k].len());
        proof {
            assert(lines@[k as int]@.subrange(0, lines@[k as int].len() as int) =~= lines@[k as int]@);
            assert(line@ == all[k as int]);
        }
        let ghost before = strings_view(printed@);
        let mut entries: Vec<String> = if config.multi_line {
            check_multiples_matching_patterns(
                line.as_str(),
                config.pattern.as_str(),
                is_colored,
                filename,
            )
        } else if config.only_matching {
            check_only_matching_patterns(line.as_str(), config.pattern.as_str(), is_colored, filename)
        } else {
            let mut one: Vec<String> = Vec::new();
            match check_pattern(line.as_str(), config.pattern.as_str(), is_colored, filename, config) {
                Some(text) => {
                    one.push(text);
                },
                None => {},
            }
            one
        };
        assert(strings_view(entries@) =~= line_output(all[k as int], mode));
        let matched = entries.len() > 0;
        assert(matched == line_matched(all[k as int], mode));
        printed.append(&mut entries);
        proof {
            assert(strings_view(printed@) =~= before + line_output(all[k as int], mode));
            assert(strings_view(printed@) + output_from(all, k + 1, mode) =~= before + (line_output(
                all[k as int],
                mode,
            ) + output_from(all, k + 1, mode)));
        }
        if matched {
            matched_any = true;
        }
        k += 1;
    }
    proof {
        assert(strings_view(printed@) + Seq::<Seq<char>>::empty() =~= strings_view(printed@));
    }
    (matched_any, printed)
}

/// Searches the lines of `content` as [`search_lines`] does. Whether the
/// matches are coloured follows from the colour mode, and in the mode `auto`
/// from whether standard output is a terminal.
pub fn search_file(content: &str, config: &Config, filename: Option<&str>) -> (r: (bool, Vec<String>))
    requires
        config.pattern@.len() < usize::MAX,
    ensures
        exists|stdout_is_tty: bool|
            {
                let mode = mode_of(
                    *config,
                    filename,
                    #[trigger] colour_on(config.color_mode@, stdout_is_tty),
                );
                r.0 == any_matched(lines_of(content@), mode) && strings_view(r.1@) == output_from(
                    lines_of(content@),
                    0,
                    mode,
                )
            },
{
    let stdout_is_tty = if str_equals(config.color_mode.as_str(), "auto") {
        stdout_is_terminal()
    } else {
        false
    };
    let is_colored = use_color(config.color_mode.as_str(), stdout_is_tty);
    search_lines(content, config, filename, is_colored)
}

/// Whether a directory of this name is passed over when directories are
/// walked: the hidden ones, whose names start with a dot.
pub fn is_hidden_name(name: &str) -> (hidden: bool)
    ensures
        hidden == (name@.len() > 0 && name@[0] == '.'),
{
    let chars = chars_of(name);
    chars.len() > 0 && chars[0] == '.'
}

/// Whether each printed entry starts with its file's name: when more than
/// one file is searched, or directories are walked.
pub fn should_prefix(file_count: usize, recursive: bool) -> (prefix: bool)
    ensures
        prefix == (file_count > 1 || recursive),
{
    file_count > 1 || recursive
}

/// The exit code of a run: 0 if any line matched, 1 if none did.
pub fn exit_code(matched_any: bool) -> (code: i32)
    ensures
        code == (if matched_any { 0i32 } else { 1i32 }),
{
    if matched_any {
        0
    } else {
        1
    }
}

} // verus!
