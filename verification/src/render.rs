//! What a search prints for a line: the line, its matches, their colour.

use vstd::prelude::*;
use crate::parser::matcher::matches_somewhere;
use crate::parser::types::model_seq;
use crate::search::{
    compile, compiled, find_all_chars, find_from, in_order, match_pattern, spans_view, Config,
};
use crate::text::{chars_of, push_range};

verus! {

/// The escape sequence that turns bold red on.
pub open spec fn red() -> Seq<char> {
    seq!['\x1b', '[', '1', ';', '3', '1', 'm']
}

/// The escape sequence that turns colours off.
pub open spec fn reset() -> Seq<char> {
    seq!['\x1b', '[', '0', 'm']
}

/// `text` in bold red.
pub open spec fn colored(text: Seq<char>) -> Seq<char> {
    red() + text + reset()
}

/// The line `input` from offset `from` on, with the spans from index `k` on
/// in bold red and what lies between them as it is.
pub open spec fn paint(input: Seq<char>, spans: Seq<(int, int)>, k: int, from: int) -> Seq<char>
    decreases spans.len() - k,
{
    if k < 0 || k >= spans.len() {
        input.subrange(from, input.len() as int)
    } else {
        input.subrange(from, spans[k].0) + colored(input.subrange(spans[k].0, spans[k].1)) + paint(
            input,
            spans,
            k + 1,
            spans[k].1,
        )
    }
}

/// The characters of a file name that may be missing.
pub open spec fn name_view(filename: Option<&str>) -> Option<Seq<char>> {
    match filename {
        Some(name) => Some(name@),
        None => None,
    }
}

/// `text` behind the file name and a colon, if there is a file name.
pub open spec fn with_prefix(filename: Option<Seq<char>>, text: Seq<char>) -> Seq<char> {
    match filename {
        Some(name) => name + seq![':'] + text,
        None => text,
    }
}

/// What is printed for one match: the matched text, in bold red if colour is
/// on, behind the file name if there is one.
pub open spec fn shown(
    input: Seq<char>,
    span: (int, int),
    is_colored: bool,
    filename: Option<Seq<char>>,
) -> Seq<char> {
    let text = input.subrange(span.0, span.1);
    with_prefix(filename, if is_colored { colored(text) } else { text })
}

/// How many bytes the character `c` takes in UTF-8.
pub open spec fn utf8_width(c: char) -> nat {
    if (c as u32) < 0x80 {
        1
    } else if (c as u32) < 0x800 {
        2
    } else if (c as u32) < 0x10000 {
        3
    } else {
        4
    }
}

/// The byte offset of the character offset `n` in a string that holds the
/// characters `s` in UTF-8; behind the last character it is the string's
/// length in bytes.
pub open spec fn byte_offset(s: Seq<char>, n: nat) -> nat
    decreases n,
{
    if n == 0 || s.len() == 0 {
        0
    } else {
        utf8_width(s[0]) + byte_offset(s.subrange(1, s.len() as int), (n - 1) as nat)
    }
}

/// The byte offset in `s` of the character offset `char_index`.
pub fn char_to_byte(s: &str, char_index: usize) -> (offset: usize)
    requires
        byte_offset(s@, char_index as nat) <= usize::MAX,
    ensures
        offset == byte_offset(s@, char_index as nat),
{
    let chars = chars_of(s);
    let mut offset: usize = 0;
    let mut i: usize = 0;
    assert(chars@.subrange(0, chars.len() as int) =~= chars@);
    while i < chars.len() && i < char_index
        invariant
            i <= chars.len(),
            i <= char_index,
            chars@ == s@,
            byte_offset(s@, char_index as nat) <= usize::MAX,
            byte_offset(s@, char_index as nat) == offset + byte_offset(
                chars@.subrange(i as int, chars.len() as int),
                (char_index - i) as nat,
            ),
        decreases chars.len() - i,
    {
        let code = chars[i] as u32;
        let width: usize = if code < 0x80 {
            1
        } else if code < 0x800 {
            2
        } else if code < 0x10000 {
            3
        } else {
            4
        };
        proof {
            let left = chars@.subrange(i as int, chars.len() as int);
            assert(left[0] == chars@[i as int]);
            assert(left.subrange(1, left.len() as int) =~= chars@.subrange(
                i + 1,
                chars.len() as int,
            ));
        }
        offset = offset + width;
        i += 1;
    }
    offset
}

fn push_red(out: &mut String)
    ensures
        final(out)@ == old(out)@ + red(),
{
    out.push('\x1b');
    out.push('[');
    out.push('1');
    out.push(';');
    out.push('3');
    out.push('1');
    out.push('m');
    assert(out@ =~= old(out)@ + red());
}

fn push_reset(out: &mut String)
    ensures
        final(out)@ == old(out)@ + reset(),
{
    out.push('\x1b');
    out.push('[');
    out.push('0');
    out.push('m');
    assert(out@ =~= old(out)@ + reset());
}

/// A string that starts with the file name and a colon, if there is a name.
fn start_line(filename: Option<&str>) -> (out: String)
    ensures
        out@ == with_prefix(name_view(filename), Seq::empty()),
{
    let mut out = String::new();
    match filename {
        Some(name) => {
            let chars = chars_of(name);
            push_range(&mut out, chars.as_slice(), 0, chars.len());
            out.push(':');
            assert(chars@.subrange(0, chars.len() as int) =~= chars@);
            assert(out@ =~= name@ + seq![':'] + Seq::<char>::empty());
        },
        None => {},
    }
    out
}

/// The line with its spans in bold red.
pub fn paint_line(input: &[char], spans: &Vec<(usize, usize)>) -> (out: String)
    requires
        in_order(spans@, input.len() as int),
    ensures
        out@ == paint(input@, spans_view(spans@), 0, 0),
{
    let mut out = String::new();
    let mut from: usize = 0;
    let mut k: usize = 0;
    let ghost marks = spans_view(spans@);
    assert(out@ + paint(input@, marks, 0, 0) =~= paint(input@, marks, 0, 0));
    while k < spans.len()
        invariant
            k <= spans.len(),
            from <= input.len(),
            marks == spans_view(spans@),
            in_order(spans@, input.len() as int),
            forall|i: int| k <= i < spans.len() ==> from <= (#[trigger] spans@[i]).0,
            paint(input@, marks, 0, 0) == out@ + paint(input@, marks, k as int, from as int),
        decreases spans.len() - k,
    {
        let (start, end) = spans[k];
        let ghost before = out@;
        assert(marks[k as int] == (start as int, end as int));
        push_range(&mut out, input, from, start);
        push_red(&mut out);
        push_range(&mut out, input, start, end);
        push_reset(&mut out);
        proof {
            assert(out@ =~= before + (input@.subrange(from as int, start as int) + colored(
                input@.subrange(start as int, end as int),
            )));
            assert(out@ + paint(input@, marks, k + 1, end as int) =~= before + paint(
                input@,
                marks,
                k as int,
                from as int,
            ));
        }
        from = end;
        k += 1;
    }
    push_range(&mut out, input, from, input.len());
    out
}

/// The line with every match of the pattern in bold red.
pub fn highlight_matches_in_line(input_line: &str, pattern: &str) -> (out: String)
    requires
        pattern@.len() < usize::MAX,
    ensures
        out@ == paint(input_line@, find_from(input_line@, compiled(pattern@), 0), 0, 0),
{
    let tokens = compile(pattern);
    let input_chars = chars_of(input_line);
    let spans = find_all_chars(input_chars.as_slice(), tokens.as_slice());
    paint_line(input_chars.as_slice(), &spans)
}

/// What is printed for a line in the ordinary mode: nothing if the pattern
/// does not match it; else the line, with its matches in bold red if colour
/// is on, behind the file name if there is one.
pub fn check_pattern(
    input_line: &str,
    pattern: &str,
    is_colored: bool,
    filename: Option<&str>,
    config: &Config,
) -> (line: Option<String>)
    requires
        pattern@.len() < usize::MAX,
    ensures
        line is Some == matches_somewhere(input_line@, compiled(pattern@)),
        line is Some ==> line->0@ == with_prefix(
            name_view(filename),
            if is_colored {
                paint(input_line@, find_from(input_line@, compiled(pattern@), 0), 0, 0)
            } else {
                input_line@
            },
        ),
{
    if !match_pattern(input_line, pattern, config) {
        return None;
    }
    let mut out = start_line(filename);
    let body = if is_colored {
        chars_of(highlight_matches_in_line(input_line, pattern).as_str())
    } else {
        chars_of(input_line)
    };
    let ghost before = out@;
    push_range(&mut out, body.as_slice(), 0, body.len());
    proof {
        assert(body@.subrange(0, body.len() as int) =~= body@);
        assert(out@ =~= with_prefix(name_view(filename), body@));
    }
    Some(out)
}

/// What is printed for a line when only the matches are wanted: one entry
/// for each match, from left to right.
pub fn check_only_matching_patterns(
    input_line: &str,
    pattern: &str,
    is_colored: bool,
    filename: Option<&str>,
) -> (lines: Vec<String>)
    requires
        pattern@.len() < usize::MAX,
    ensures
        lines.len() == find_from(input_line@, compiled(pattern@), 0).len(),
        forall|i: int|
            0 <= i < lines.len() ==> (#[trigger] lines@[i])@ == shown(
                input_line@,
                find_from(input_line@, compiled(pattern@), 0)[i],
                is_colored,
                name_view(filename),
            ),
{
    let tokens = compile(pattern);
    let input_chars = chars_of(input_line);
    let spans = find_all_chars(input_chars.as_slice(), tokens.as_slice());
    let ghost marks = find_from(input_line@, compiled(pattern@), 0);
    let mut lines: Vec<String> = Vec::new();
    let mut k: usize = 0;
    while k < spans.len()
        invariant
            k <= spans.len(),
            lines.len() == k,
            input_chars@ == input_line@,
            marks == spans_view(spans@),
            in_order(spans@, input_chars.len() as int),
            forall|i: int|
                0 <= i < k ==> (#[trigger] lines@[i])@ == shown(
                    input_line@,
                    marks[i],
                    is_colored,
                    name_view(filename),
                ),
        decreases spans.len() - k,
    {
        let (start, end) = spans[k];
        assert(marks[k as int] == (start as int, end as int));
        let mut out = start_line(filename);
        let ghost before = out@;
        if is_colored {
            push_red(&mut out);
            push_range(&mut out, input_chars.as_slice(), start, end);
            push_reset(&mut out);
            assert(out@ =~= before + colored(input_line@.subrange(start as int, end as int)));
        } else {
            push_range(&mut out, input_chars.as_slice(), start, end);
        }
        assert(out@ =~= shown(input_line@, marks[k as int], is_colored, name_view(filename)));
        lines.push(out);
        k += 1;
    }
    lines
}

/// What is printed for a line when every match of the line is wanted: the
/// same entries as [`check_only_matching_patterns`] gives.
pub fn check_multiples_matching_patterns(
    line: &str,
    pattern: &str,
    is_colored: bool,
    filename: Option<&str>,
) -> (lines: Vec<String>)
    requires
        pattern@.len() < usize::MAX,
    ensures
        lines.len() == find_from(line@, compiled(pattern@), 0).len(),
        forall|i: int|
            0 <= i < lines.len() ==> (#[trigger] lines@[i])@ == shown(
                line@,
                find_from(line@, compiled(pattern@), 0)[i],
                is_colored,
                name_view(filename),
            ),
{
    check_only_matching_patterns(line, pattern, is_colored, filename)
}

} // verus!
