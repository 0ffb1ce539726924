//! The pattern language: which token tree a pattern string stands for.

use vstd::prelude::*;
use crate::parser::semantics::is_digit;
use crate::parser::types::{Pat, Quantifiers};

verus! {

/// The value of a decimal digit.
pub open spec fn digit_value(c: char) -> nat {
    (c as u32 - '0' as u32) as nat
}

/// The number that a run of decimal digits spells.
pub open spec fn decimal(digits: Seq<char>) -> nat
    decreases digits.len(),
{
    if digits.len() == 0 {
        0
    } else {
        decimal(digits.drop_last()) * 10 + digit_value(digits.last())
    }
}

/// The number that `digits` spells, if there is a digit and the number fits
/// the machine's word.
pub open spec fn number(digits: Seq<char>) -> Option<nat> {
    if digits.len() > 0 && decimal(digits) <= usize::MAX {
        Some(decimal(digits))
    } else {
        None
    }
}

/// How many decimal digits stand in a row from index `i` on.
pub open spec fn digit_run(p: Seq<char>, i: int) -> nat
    decreases p.len() - i,
{
    if 0 <= i < p.len() && is_digit(p[i]) {
        1 + digit_run(p, i + 1)
    } else {
        0
    }
}

/// How many characters stand between index `i` and the next `c`, or the end.
pub open spec fn distance_to(p: Seq<char>, i: int, c: char) -> nat
    decreases p.len() - i,
{
    if 0 <= i < p.len() && p[i] != c {
        1 + distance_to(p, i + 1, c)
    } else {
        0
    }
}

/// How many characters stand between index `i` and the `)` that closes the
/// group which is `depth` levels open there, or the end.
pub open spec fn group_span(p: Seq<char>, i: int, depth: nat) -> nat
    decreases p.len() - i,
{
    if 0 <= i < p.len() {
        if p[i] == '(' {
            1 + group_span(p, i + 1, depth + 1)
        } else if p[i] == ')' {
            if depth <= 1 {
                0
            } else {
                1 + group_span(p, i + 1, (depth - 1) as nat)
            }
        } else {
            1 + group_span(p, i + 1, depth)
        }
    } else {
        0
    }
}

/// The depth of nesting behind the character `c`, when it was `depth` before.
pub open spec fn depth_after(depth: int, c: char) -> int {
    if c == '(' {
        depth + 1
    } else if c == ')' {
        depth - 1
    } else {
        depth
    }
}

/// The pieces of `s[i..]` between the separators at nesting depth 0, where
/// `current` is the part of the first piece that lies before index `i`.
pub open spec fn split_from(s: Seq<char>, i: int, depth: int, current: Seq<char>, sep: char) -> Seq<
    Seq<char>,
>
    decreases s.len() - i,
{
    if 0 <= i < s.len() {
        let d = depth_after(depth, s[i]);
        if s[i] == sep && d == 0 {
            seq![current] + split_from(s, i + 1, d, Seq::empty(), sep)
        } else {
            split_from(s, i + 1, d, current.push(s[i]), sep)
        }
    } else {
        seq![current]
    }
}

/// The pieces of `s` between the separators that stand outside all
/// parentheses.
pub open spec fn split_spec(s: Seq<char>, sep: char) -> Seq<Seq<char>> {
    split_from(s, 0, 0, Seq::empty(), sep)
}

/// The next `c`, or the end, lies within the pattern.
pub proof fn lemma_distance_bound(p: Seq<char>, i: int, c: char)
    requires
        0 <= i <= p.len(),
    ensures
        i + distance_to(p, i, c) <= p.len(),
    decreases p.len() - i,
{
    if i < p.len() {
        lemma_distance_bound(p, i + 1, c);
    }
}

/// A group's span ends within the pattern.
pub proof fn lemma_group_span_bound(p: Seq<char>, i: int, depth: nat)
    requires
        0 <= i <= p.len(),
    ensures
        i + group_span(p, i, depth) <= p.len(),
    decreases p.len() - i,
{
    if i < p.len() {
        if p[i] == '(' {
            lemma_group_span_bound(p, i + 1, depth + 1);
        } else if p[i] == ')' {
            if depth > 1 {
                lemma_group_span_bound(p, i + 1, (depth - 1) as nat);
            }
        } else {
            lemma_group_span_bound(p, i + 1, depth);
        }
    }
}

/// The pieces of a split are together no longer than what was split.
pub proof fn lemma_split_from_lengths(s: Seq<char>, i: int, depth: int, current: Seq<char>, sep: char)
    requires
        0 <= i <= s.len(),
    ensures
        split_from(s, i, depth, current, sep).len() >= 1,
        forall|k: int|
            0 <= k < split_from(s, i, depth, current, sep).len() ==> (#[trigger] split_from(
                s,
                i,
                depth,
                current,
                sep,
            )[k]).len() <= current.len() + (s.len() - i),
    decreases s.len() - i,
{
    if i < s.len() {
        let d = depth_after(depth, s[i]);
        if s[i] == sep && d == 0 {
            lemma_split_from_lengths(s, i + 1, d, Seq::empty(), sep);
        } else {
            lemma_split_from_lengths(s, i + 1, d, current.push(s[i]), sep);
        }
    }
}

/// What a braced repetition asks for.
pub enum Repeat {
    Exact(nat),
    Range(nat, Option<nat>),
}

/// The repetition that a brace holds when it ends with `digits` read since
/// the last comma, `min` read before it, and `comma` telling whether there
/// was one.
pub open spec fn brace_end(digits: Seq<char>, min: Option<nat>, comma: bool) -> Option<Repeat> {
    if comma {
        match min {
            Some(m) => if digits.len() == 0 {
                Some(Repeat::Range(m, None))
            } else {
                match number(digits) {
                    Some(x) => Some(Repeat::Range(m, Some(x))),
                    None => None,
                }
            },
            None => None,
        }
    } else {
        match number(digits) {
            Some(n) => Some(Repeat::Exact(n)),
            None => None,
        }
    }
}

/// Reads the inside of a brace from index `j` on: the repetition it holds, if
/// it is well formed, and how many characters were read. A `}` or the end of
/// the pattern ends it; a comma needs a number before it; any other character
/// but a digit spoils it.
pub open spec fn brace_scan(p: Seq<char>, j: int, digits: Seq<char>, min: Option<nat>, comma: bool) -> (
    Option<Repeat>,
    nat,
)
    decreases p.len() - j,
{
    if 0 <= j < p.len() {
        let c = p[j];
        if c == '}' {
            (brace_end(digits, min, comma), 1)
        } else if c == ',' {
            match number(digits) {
                Some(n) => {
                    let more = brace_scan(p, j + 1, Seq::empty(), Some(n), true);
                    (more.0, 1 + more.1)
                },
                None => (None, 1),
            }
        } else if is_digit(c) {
            let more = brace_scan(p, j + 1, digits.push(c), min, comma);
            (more.0, 1 + more.1)
        } else {
            (None, 1)
        }
    } else {
        (brace_end(digits, min, comma), 0)
    }
}

/// The token `tok` with the quantifier that stands at index `j`, if one does,
/// and how many characters the quantifier takes. A spoiled brace leaves a
/// literal `{` in place of the token.
pub open spec fn suffix_at(p: Seq<char>, tok: Pat, j: int) -> (Pat, nat) {
    if 0 <= j < p.len() {
        let c = p[j];
        if c == '+' {
            (Pat::Quantifier(Box::new(tok), Quantifiers::OneOrMore), 1)
        } else if c == '?' {
            (Pat::Quantifier(Box::new(tok), Quantifiers::ZeroOrOne), 1)
        } else if c == '*' {
            (Pat::Quantifier(Box::new(tok), Quantifiers::ZeroOrMore), 1)
        } else if c == '{' {
            let inside = brace_scan(p, j + 1, Seq::empty(), None, false);
            let wrapped = match inside.0 {
                Some(Repeat::Exact(n)) => Pat::ExactRepetition(Box::new(tok), n),
                Some(Repeat::Range(min, max)) => Pat::RangeRepetition(Box::new(tok), min, max),
                None => Pat::Literal('{'),
            };
            (wrapped, 1 + inside.1)
        } else {
            (tok, 0)
        }
    } else {
        (tok, 0)
    }
}

/// The token that starts at index `i`, before any quantifier, and how many
/// characters it takes behind its first. A backslash at the very end gives no
/// token.
pub open spec fn atom_at(p: Seq<char>, i: int) -> (Option<Pat>, nat)
    recommends
        0 <= i < p.len(),
    decreases p.len(), 0nat,
{
    let c = p[i];
    if c == '\\' {
        if i + 1 < p.len() {
            let e = p[i + 1];
            if e == 'd' {
                (Some(Pat::Digit), 1)
            } else if e == 'w' {
                (Some(Pat::Word), 1)
            } else if is_digit(e) {
                let run = digit_run(p, i + 1);
                let tok = match number(p.subrange(i + 1, i + 1 + run)) {
                    Some(n) => if n > 0 {
                        Pat::BackReference(n)
                    } else {
                        Pat::Literal(e)
                    },
                    None => Pat::Literal(e),
                };
                (Some(tok), run)
            } else {
                (Some(Pat::Literal(e)), 1)
            }
        } else {
            (None, 0)
        }
    } else if c == '.' {
        (Some(Pat::WildCard), 0)
    } else if c == '^' {
        (Some(Pat::StartAnchor), 0)
    } else if c == '$' {
        (Some(Pat::EndAnchor), 0)
    } else if c == '[' {
        let negated = i + 1 < p.len() && p[i + 1] == '^';
        let start = if negated { i + 2 } else { i + 1 };
        let count = distance_to(p, start, ']');
        let set = p.subrange(start, start + count);
        let closed: nat = if start + count < p.len() { 1 } else { 0 };
        let caret: nat = if negated { 1 } else { 0 };
        (Some(if negated { Pat::NegCharGroup(set) } else { Pat::CharGroup(set) }), caret + count + closed)
    } else if c == '(' && 0 <= i < p.len() {
        let span = group_span(p, i + 1, 1);
        let content = p.subrange(i + 1, i + 1 + span);
        let parts = split_spec(content, '|');
        let closed: nat = if i + 1 + span < p.len() { 1 } else { 0 };
        proof {
            lemma_group_span_bound(p, i + 1, 1);
            lemma_split_from_lengths(content, 0, 0, Seq::empty(), '|');
        }
        let inner = if parts.len() > 1 {
            seq![
                Pat::Alternation(
                    Seq::new(
                        parts.len(),
                        |k: int|
                            if 0 <= k < parts.len() {
                                tokens_from(parts[k], 0)
                            } else {
                                Seq::empty()
                            },
                    ),
                ),
            ]
        } else {
            tokens_from(content, 0)
        };
        (Some(Pat::CaptureGroup(0, inner)), span + closed)
    } else {
        (Some(Pat::Literal(c)), 0)
    }
}

/// The tokens of `p[i..]`.
pub open spec fn tokens_from(p: Seq<char>, i: int) -> Seq<Pat>
    decreases p.len(), (if 0 <= i <= p.len() { p.len() - i + 1 } else { 0 }),
{
    if 0 <= i < p.len() {
        let atom = atom_at(p, i);
        match atom.0 {
            Some(tok) => {
                let whole = suffix_at(p, tok, i + 1 + atom.1);
                seq![whole.0] + tokens_from(p, i + 1 + atom.1 + whole.1)
            },
            None => Seq::empty(),
        }
    } else {
        Seq::empty()
    }
}

/// The token tree that the pattern `p` stands for.
pub open spec fn tokens_of(p: Seq<char>) -> Seq<Pat> {
    tokens_from(p, 0)
}

} // verus!
