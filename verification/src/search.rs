//! The search driver: compiling a pattern, scanning a line, listing matches.

use vstd::prelude::*;
use crate::parser::grammar::tokens_of;
use crate::parser::groups::{assign_group_numbers, lemma_pattern_groups_bounded, renumber_seq};
use crate::parser::matcher::{
    caps_view, match_tokens, matches_from_range, matches_somewhere, starts_anchored,
};
use crate::parser::semantics::run;
use crate::parser::tokenize::tokenize;
use crate::parser::types::{model_seq, Pat, Token};
use crate::text::chars_of;

verus! {

/// The settings of one search.
#[derive(Debug)]
pub struct Config {
    pub pattern: String,
    pub filenames: Vec<String>,
    pub color_mode: String,
    pub recursive: bool,
    pub only_matching: bool,
    pub multi_line: bool,
    pub debug: bool,
}

/// The token tree that a pattern string is matched by: its tokens, with the
/// groups numbered from 1 on.
pub open spec fn compiled(pattern: Seq<char>) -> Seq<Pat> {
    renumber_seq(tokens_of(pattern), 1)
}

/// Tokenizes `pattern` and numbers its groups.
pub fn compile(pattern: &str) -> (tokens: Vec<Token>)
    requires
        pattern@.len() < usize::MAX,
    ensures
        model_seq(tokens@) == compiled(pattern@),
{
    let mut tokens = tokenize(pattern);
    let mut group_counter: usize = 1;
    proof {
        lemma_pattern_groups_bounded(pattern@);
    }
    assign_group_numbers(tokens.as_mut_slice(), &mut group_counter);
    tokens
}

/// Whether `pattern` matches somewhere in `input`.
pub fn match_pattern(input: &str, pattern: &str, config: &Config) -> (found: bool)
    requires
        pattern@.len() < usize::MAX,
    ensures
        found == matches_somewhere(input@, compiled(pattern@)),
{
    let tokens = compile(pattern);
    match_tokens(input, tokens.as_slice(), config)
}

/// Whether the pattern ends with the end anchor.
pub open spec fn ends_anchored(pats: Seq<Pat>) -> bool {
    pats.len() > 0 && pats.last() is EndAnchor
}

/// The matches of `pats` in `input` from offset `pos` on, each as the pair of
/// its first offset and the offset behind its last character. The scan goes
/// from left to right and never reaches the end of the input as a start.
/// Behind a match it goes on where the match ended, or one character further
/// if the match was empty. A pattern that starts with the start anchor is
/// tried at offset 0 only; of one that ends with the end anchor, a match
/// counts only if it ends where the input ends.
pub open spec fn find_from(input: Seq<char>, pats: Seq<Pat>, pos: int) -> Seq<(int, int)>
    decreases (if 0 <= pos <= input.len() { input.len() - pos } else { 0 }),
{
    if pos < 0 || pos >= input.len() || (starts_anchored(pats) && pos != 0) {
        Seq::empty()
    } else {
        match run(input, pats, pos, Seq::empty()) {
            Some(m) => {
                let end = pos + m.len;
                if ends_anchored(pats) && end != input.len() {
                    find_from(input, pats, pos + 1)
                } else if end > pos {
                    seq![(pos, end)] + find_from(input, pats, end)
                } else {
                    seq![(pos, end)] + find_from(input, pats, pos + 1)
                }
            },
            None => find_from(input, pats, pos + 1),
        }
    }
}

/// Every span that the scan lists is a match: the matcher, started at the
/// span's first offset with no captures, consumes the span exactly.
pub proof fn law_found_spans_are_matches(input: Seq<char>, pats: Seq<Pat>, pos: int, i: int)
    requires
        0 <= i < find_from(input, pats, pos).len(),
    ensures
        ({
            let span = find_from(input, pats, pos)[i];
            &&& pos <= span.0 < input.len()
            &&& run(input, pats, span.0, Seq::empty()) matches Some(m) && span.1 == span.0 + m.len
        }),
    decreases (if 0 <= pos <= input.len() { input.len() - pos } else { 0 }),
{
    match run(input, pats, pos, Seq::empty()) {
        Some(m) => {
            let end = pos + m.len;
            if ends_anchored(pats) && end != input.len() {
                law_found_spans_are_matches(input, pats, pos + 1, i);
            } else if i > 0 {
                let next = if end > pos { end } else { pos + 1 };
                assert(find_from(input, pats, pos)[i] == find_from(input, pats, next)[i - 1]);
                law_found_spans_are_matches(input, pats, next, i - 1);
            }
        },
        None => {
            law_found_spans_are_matches(input, pats, pos + 1, i);
        },
    }
}

/// Offsets as mathematical integers.
pub open spec fn spans_view(spans: Seq<(usize, usize)>) -> Seq<(int, int)> {
    spans.map_values(|s: (usize, usize)| (s.0 as int, s.1 as int))
}

/// Whether the spans lie within `len` characters, from left to right, none
/// reaching into the next.
pub open spec fn in_order(spans: Seq<(usize, usize)>, len: int) -> bool {
    &&& forall|i: int| 0 <= i < spans.len() ==> (#[trigger] spans[i]).0 <= spans[i].1 <= len
    &&& forall|i: int, j: int|
        0 <= i < j < spans.len() ==> (#[trigger] spans[i]).1 <= (#[trigger] spans[j]).0
}

/// Every match of `tokens` in the characters `input`, from left to right.
pub fn find_all_chars(input: &[char], tokens: &[Token]) -> (spans: Vec<(usize, usize)>)
    ensures
        spans_view(spans@) == find_from(input@, model_seq(tokens@), 0),
        in_order(spans@, input.len() as int),
{
    let anchored = tokens.len() > 0 && matches!(tokens[0], Token::StartAnchor);
    let to_end = tokens.len() > 0 && matches!(tokens[tokens.len() - 1], Token::EndAnchor);
    let ghost pats = model_seq(tokens@);
    assert(anchored == starts_anchored(pats));
    assert(to_end == ends_anchored(pats));
    let mut spans: Vec<(usize, usize)> = Vec::new();
    let mut pos: usize = 0;
    assert(spans_view(spans@) + find_from(input@, pats, 0) =~= find_from(input@, pats, 0));
    while pos < input.len()
        invariant
            pos <= input.len(),
            pats == model_seq(tokens@),
            anchored == starts_anchored(pats),
            to_end == ends_anchored(pats),
            in_order(spans@, input.len() as int),
            forall|i: int| 0 <= i < spans.len() ==> (#[trigger] spans@[i]).1 <= pos,
            find_from(input@, pats, 0) == spans_view(spans@) + find_from(input@, pats, pos as int),
        ensures
            find_from(input@, pats, 0) == spans_view(spans@),
            in_order(spans@, input.len() as int),
        decreases input.len() - pos,
    {
        if anchored && pos != 0 {
            assert(spans_view(spans@) + Seq::<(int, int)>::empty() =~= spans_view(spans@));
            break ;
        }
        let mut captures: Vec<Option<String>> = Vec::new();
        assert(caps_view(captures@) =~= Seq::<Option<Seq<char>>>::empty());
        let ghost before = spans_view(spans@);
        match matches_from_range(input, tokens, pos, None, &mut captures) {
            Some(len) => {
                let end = pos + len;
                if to_end && end != input.len() {
                    pos += 1;
                } else {
                    spans.push((pos, end));
                    let next = if end > pos { end } else { pos + 1 };
                    proof {
                        assert(spans_view(spans@) =~= before + seq![(pos as int, end as int)]);
                        assert(spans_view(spans@) + find_from(input@, pats, next as int) =~= before + (
                        seq![(pos as int, end as int)] + find_from(input@, pats, next as int)));
                    }
                    pos = next;
                }
            },
            None => {
                pos += 1;
            },
        }
    }
    proof {
        assert(spans_view(spans@) + Seq::<(int, int)>::empty() =~= spans_view(spans@));
    }
    spans
}

/// Every match of `tokens` in `input_line`, from left to right, in
/// character offsets.
pub fn find_all(input_line: &str, tokens: &[Token]) -> (spans: Vec<(usize, usize)>)
    ensures
        spans_view(spans@) == find_from(input_line@, model_seq(tokens@), 0),
        in_order(spans@, input_line@.len() as int),
{
    let input_chars = chars_of(input_line);
    find_all_chars(input_chars.as_slice(), tokens)
}

} // verus!
