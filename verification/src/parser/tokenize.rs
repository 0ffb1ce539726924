//! The tokenizer: from a pattern string to its token tree.

use vstd::prelude::*;
use crate::parser::grammar::{
    atom_at, brace_end, brace_scan, decimal, digit_run, distance_to, group_span,
    lemma_split_from_lengths, number, split_from, split_spec, suffix_at, tokens_from, tokens_of,
    Repeat,
};
use crate::parser::semantics::is_digit;
use crate::parser::types::{model, model_branches, model_seq, Pat, Quantifiers, Token};
use crate::text::{chars_of, string_of};

verus! {

/// Whether `p[from..to]` holds decimal digits only.
pub open spec fn all_digits(p: Seq<char>, from: int, to: int) -> bool {
    forall|k: int| from <= k < to ==> is_digit(#[trigger] p[k])
}

/// A number is at least the number that a prefix of its digits spells.
proof fn lemma_decimal_prefix(digits: Seq<char>, k: int)
    requires
        0 <= k <= digits.len(),
    ensures
        decimal(digits.take(k)) <= decimal(digits),
    decreases digits.len() - k,
{
    if k < digits.len() {
        lemma_decimal_prefix(digits, k + 1);
        assert(digits.take(k + 1).drop_last() =~= digits.take(k));
    } else {
        assert(digits.take(k) =~= digits);
    }
}

/// The number that the digits `p[from..to]` spell, unless it is too large or
/// there is no digit.
fn parse_number(p: &[char], from: usize, to: usize) -> (r: Option<usize>)
    requires
        from <= to <= p.len(),
        all_digits(p@, from as int, to as int),
    ensures
        match number(p@.subrange(from as int, to as int)) {
            Some(n) => r == Some(n as usize),
            None => r is None,
        },
{
    if from == to {
        return None;
    }
    let ghost digits = p@.subrange(from as int, to as int);
    let mut value: usize = 0;
    let mut k: usize = from;
    while k < to
        invariant
            from <= k <= to <= p.len(),
            digits == p@.subrange(from as int, to as int),
            all_digits(p@, from as int, to as int),
            value == decimal(digits.take(k - from)),
        decreases to - k,
    {
        let c = p[k];
        assert(is_digit(p@[k as int]));
        let d: usize = (c as u32 - '0' as u32) as usize;
        proof {
            assert(digits.take(k + 1 - from).drop_last() =~= digits.take(k - from));
            assert(digits.take(k + 1 - from).last() == c);
            lemma_decimal_prefix(digits, k + 1 - from);
        }
        if value > (usize::MAX - d) / 10 {
            return None;
        }
        value = value * 10 + d;
        k += 1;
    }
    assert(digits.take(to - from) =~= digits);
    Some(value)
}

/// The index behind the run of digits that starts at `i`.
fn skip_digits(p: &[char], i: usize) -> (end: usize)
    requires
        i <= p.len(),
    ensures
        end == i + digit_run(p@, i as int),
        end <= p.len(),
        all_digits(p@, i as int, end as int),
{
    let mut k: usize = i;
    while k < p.len() && p[k] >= '0' && p[k] <= '9'
        invariant
            i <= k <= p.len(),
            all_digits(p@, i as int, k as int),
            digit_run(p@, i as int) == (k - i) + digit_run(p@, k as int),
        decreases p.len() - k,
    {
        k += 1;
    }
    k
}

/// The index of the next `c` from `i` on, or the end.
fn skip_to(p: &[char], i: usize, c: char) -> (end: usize)
    requires
        i <= p.len(),
    ensures
        end == i + distance_to(p@, i as int, c),
        end <= p.len(),
{
    let mut k: usize = i;
    while k < p.len() && p[k] != c
        invariant
            i <= k <= p.len(),
            distance_to(p@, i as int, c) == (k - i) + distance_to(p@, k as int, c),
        decreases p.len() - k,
    {
        k += 1;
    }
    k
}

/// The index of the `)` that closes the group whose inside starts at `i`, or
/// the end.
fn skip_group(p: &[char], i: usize) -> (end: usize)
    requires
        i <= p.len(),
    ensures
        end == i + group_span(p@, i as int, 1),
        end <= p.len(),
{
    let mut k: usize = i;
    let mut depth: u128 = 1;
    while k < p.len() && !(p[k] == ')' && depth == 1)
        invariant
            i <= k <= p.len(),
            1 <= depth <= k - i + 1,
            group_span(p@, i as int, 1) == (k - i) + group_span(p@, k as int, depth as nat),
        decreases p.len() - k,
    {
        if p[k] == '(' {
            depth += 1;
        } else if p[k] == ')' {
            depth -= 1;
        }
        k += 1;
    }
    k
}

/// The views of the pieces.
pub open spec fn pieces_view(parts: Seq<Vec<char>>) -> Seq<Seq<char>> {
    parts.map_values(|v: Vec<char>| v@)
}

/// Splits `s` at the separators that stand outside all parentheses.
pub fn split_chars(s: &[char], sep: char) -> (parts: Vec<Vec<char>>)
    ensures
        pieces_view(parts@) == split_spec(s@, sep),
{
    let mut parts: Vec<Vec<char>> = Vec::new();
    let mut current: Vec<char> = Vec::new();
    let mut depth: i128 = 0;
    let mut i: usize = 0;
    assert(pieces_view(parts@) + split_from(s@, 0, 0, current@, sep) =~= split_spec(s@, sep));
    while i < s.len()
        invariant
            i <= s.len(),
            -(i as int) <= depth <= i,
            split_spec(s@, sep) == pieces_view(parts@) + split_from(
                s@,
                i as int,
                depth as int,
                current@,
                sep,
            ),
        decreases s.len() - i,
    {
        let c = s[i];
        if c == '(' {
            depth += 1;
        } else if c == ')' {
            depth -= 1;
        }
        let ghost before = pieces_view(parts@);
        if c == sep && depth == 0 {
            let ghost piece = current@;
            parts.push(current);
            current = Vec::new();
            assert(pieces_view(parts@) =~= before + seq![piece]);
            assert(pieces_view(parts@) + split_from(s@, i + 1, depth as int, current@, sep) =~= before
                + (seq![piece] + split_from(s@, i + 1, depth as int, Seq::empty(), sep)));
        } else {
            current.push(c);
        }
        i += 1;
    }
    let ghost before = pieces_view(parts@);
    let ghost piece = current@;
    parts.push(current);
    assert(pieces_view(parts@) =~= before + seq![piece]);
    parts
}

/// The views of the strings.
pub open spec fn strings_view(parts: Seq<String>) -> Seq<Seq<char>> {
    parts.map_values(|v: String| v@)
}

/// Splits `s` at the separators `sep` that stand outside all parentheses.
pub fn split_top_level(s: &str, sep: char) -> (parts: Vec<String>)
    ensures
        strings_view(parts@) == split_spec(s@, sep),
{
    let chars = chars_of(s);
    let pieces = split_chars(chars.as_slice(), sep);
    let mut parts: Vec<String> = Vec::new();
    let mut i: usize = 0;
    while i < pieces.len()
        invariant
            i <= pieces.len(),
            parts.len() == i,
            forall|k: int| 0 <= k < i ==> (#[trigger] parts@[k])@ == pieces@[k]@,
        decreases pieces.len() - i,
    {
        let piece = &pieces[i];
        let text = string_of(piece.as_slice(), 0, piece.len());
        assert(piece@.subrange(0, piece.len() as int) =~= piece@);
        parts.push(text);
        i += 1;
    }
    assert(strings_view(parts@) =~= pieces_view(pieces@));
    parts
}

/// What a well-formed brace asks for.
enum Braced {
    Exact(usize),
    Range(usize, Option<usize>),
}

spec fn braced_model(b: Option<Braced>) -> Option<Repeat> {
    match b {
        Some(Braced::Exact(n)) => Some(Repeat::Exact(n as nat)),
        Some(Braced::Range(min, Some(max))) => Some(Repeat::Range(min as nat, Some(max as nat))),
        Some(Braced::Range(min, None)) => Some(Repeat::Range(min as nat, None)),
        None => None,
    }
}

spec fn min_model(min: Option<usize>) -> Option<nat> {
    match min {
        Some(m) => Some(m as nat),
        None => None,
    }
}

/// The repetition of a brace that ends with the digits `p[from..to]`.
fn finish_brace(p: &[char], from: usize, to: usize, min: Option<usize>, comma: bool) -> (r: Option<
    Braced,
>)
    requires
        from <= to <= p.len(),
        all_digits(p@, from as int, to as int),
    ensures
        braced_model(r) == brace_end(p@.subrange(from as int, to as int), min_model(min), comma),
{
    if comma {
        match min {
            Some(m) => {
                if from == to {
                    Some(Braced::Range(m, None))
                } else {
                    match parse_number(p, from, to) {
                        Some(x) => Some(Braced::Range(m, Some(x))),
                        None => None,
                    }
                }
            },
            None => None,
        }
    } else {
        match parse_number(p, from, to) {
            Some(n) => Some(Braced::Exact(n)),
            None => None,
        }
    }
}

/// Reads the inside of a brace from index `j` on.
fn read_brace(p: &[char], j: usize) -> (r: (Option<Braced>, usize))
    requires
        j <= p.len(),
    ensures
        braced_model(r.0) == brace_scan(p@, j as int, Seq::empty(), None, false).0,
        r.1 == j + brace_scan(p@, j as int, Seq::empty(), None, false).1,
        r.1 <= p.len(),
{
    let mut from: usize = j;
    let mut min: Option<usize> = None;
    let mut comma = false;
    let mut k: usize = j;
    let ghost whole = brace_scan(p@, j as int, Seq::empty(), None, false);
    assert(p@.subrange(j as int, j as int) =~= Seq::<char>::empty());
    while k < p.len()
        invariant
            j <= from <= k <= p.len(),
            all_digits(p@, from as int, k as int),
            whole == brace_scan(p@, j as int, Seq::empty(), None, false),
            ({
                let here = brace_scan(
                    p@,
                    k as int,
                    p@.subrange(from as int, k as int),
                    min_model(min),
                    comma,
                );
                whole.0 == here.0 && whole.1 == (k - j) + here.1
            }),
        decreases p.len() - k,
    {
        let c = p[k];
        if c == '}' {
            return (finish_brace(p, from, k, min, comma), k + 1);
        } else if c == ',' {
            match parse_number(p, from, k) {
                Some(n) => {
                    min = Some(n);
                    comma = true;
                    from = k + 1;
                    assert(p@.subrange(from as int, from as int) =~= Seq::<char>::empty());
                },
                None => {
                    return (None, k + 1);
                },
            }
        } else if c >= '0' && c <= '9' {
            assert(p@.subrange(from as int, k + 1) =~= p@.subrange(from as int, k as int).push(c));
        } else {
            return (None, k + 1);
        }
        k += 1;
    }
    (finish_brace(p, from, k, min, comma), k)
}

/// Wraps `tok` in the quantifier that stands at index `j`, if one does.
fn with_suffix(p: &[char], tok: Token, j: usize) -> (r: (Token, usize))
    requires
        j <= p.len(),
    ensures
        model(r.0) == suffix_at(p@, model(tok), j as int).0,
        r.1 == j + suffix_at(p@, model(tok), j as int).1,
        r.1 <= p.len(),
{
    if j >= p.len() {
        return (tok, j);
    }
    let c = p[j];
    if c == '+' {
        (Token::Quantifier(Box::new(tok), Quantifiers::OneOrMore), j + 1)
    } else if c == '?' {
        (Token::Quantifier(Box::new(tok), Quantifiers::ZeroOrOne), j + 1)
    } else if c == '*' {
        (Token::Quantifier(Box::new(tok), Quantifiers::ZeroOrMore), j + 1)
    } else if c == '{' {
        let (inside, next) = read_brace(p, j + 1);
        let wrapped = match inside {
            Some(Braced::Exact(n)) => Token::ExactRepetition(Box::new(tok), n),
            Some(Braced::Range(min, max)) => Token::RangeRepetition(Box::new(tok), min, max),
            None => literal('{'),
        };
        (wrapped, next)
    } else {
        (tok, j)
    }
}

/// The model of a token that may be missing.
pub open spec fn maybe_model(token: Option<Token>) -> Option<Pat> {
    match token {
        Some(t) => Some(model(t)),
        None => None,
    }
}

/// The token that matches the character `c` and nothing else.
fn literal(c: char) -> (token: Token)
    ensures
        model(token) == Pat::Literal(c),
{
    Token::Literal(c)
}

/// Reads the escape whose backslash stands at index `i`.
fn read_escape(p: &[char], i: usize) -> (r: (Option<Token>, usize))
    requires
        i < p.len(),
        p@[i as int] == '\\',
    ensures
        maybe_model(r.0) == atom_at(p@, i as int).0,
        r.1 == i + 1 + atom_at(p@, i as int).1,
        r.1 <= p.len(),
{
    if i + 1 < p.len() {
        let e = p[i + 1];
        if e == 'd' {
            (Some(Token::Digit), i + 2)
        } else if e == 'w' {
            (Some(Token::Word), i + 2)
        } else if e >= '0' && e <= '9' {
            let end = skip_digits(p, i + 1);
            let tok = match parse_number(p, i + 1, end) {
                Some(n) => if n > 0 {
                    Token::BackReference(n)
                } else {
                    literal(e)
                },
                None => literal(e),
            };
            (Some(tok), end)
        } else {
            (Some(literal(e)), i + 2)
        }
    } else {
        (None, i + 1)
    }
}

/// Reads the character class whose `[` stands at index `i`.
fn read_class(p: &[char], i: usize) -> (r: (Token, usize))
    requires
        i < p.len(),
        p@[i as int] == '[',
    ensures
        atom_at(p@, i as int).0 == Some(model(r.0)),
        r.1 == i + 1 + atom_at(p@, i as int).1,
        r.1 <= p.len(),
{
    let negated = i + 1 < p.len() && p[i + 1] == '^';
    let start = if negated { i + 2 } else { i + 1 };
    let end = skip_to(p, start, ']');
    let mut set: Vec<char> = Vec::new();
    let mut k: usize = start;
    while k < end
        invariant
            start <= k <= end <= p.len(),
            set@ == p@.subrange(start as int, k as int),
        decreases end - k,
    {
        set.push(p[k]);
        k += 1;
        assert(p@.subrange(start as int, k as int) =~= p@.subrange(start as int, k - 1).push(
            p@[k - 1],
        ));
    }
    let next = if end < p.len() { end + 1 } else { end };
    (if negated { Token::NegCharGroup(set) } else { Token::CharGroup(set) }, next)
}

/// Reads the group whose `(` stands at index `i`.
fn read_group(p: &[char], i: usize) -> (r: (Token, usize))
    requires
        i < p.len(),
        p@[i as int] == '(',
    ensures
        atom_at(p@, i as int).0 == Some(model(r.0)),
        r.1 == i + 1 + atom_at(p@, i as int).1,
        r.1 <= p.len(),
    decreases p.len(), 0nat,
{
    let end = skip_group(p, i + 1);
    let content = vstd::slice::slice_subrange(p, i + 1, end);
    let parts = split_chars(content, '|');
    let next = if end < p.len() { end + 1 } else { end };
    proof {
        lemma_split_from_lengths(content@, 0, 0, Seq::empty(), '|');
    }
    let ghost pieces = split_spec(content@, '|');
    let inner = if parts.len() > 1 {
        let mut branches: Vec<Vec<Token>> = Vec::new();
        let mut k: usize = 0;
        while k < parts.len()
            invariant
                k <= parts.len(),
                branches.len() == k,
                pieces == pieces_view(parts@),
                forall|m: int| 0 <= m < pieces.len() ==> (#[trigger] pieces[m]).len() < p.len(),
                forall|m: int|
                    0 <= m < k ==> model_seq((#[trigger] branches@[m])@) == tokens_from(pieces[m], 0),
            decreases parts.len() - k,
        {
            assert(pieces[k as int] == parts@[k as int]@);
            branches.push(tokenize_chars(parts[k].as_slice()));
            k += 1;
        }
        let mut inner: Vec<Token> = Vec::new();
        proof {
            let wanted = match atom_at(p@, i as int).0 {
                Some(Pat::CaptureGroup(_, inner)) => inner,
                _ => Seq::empty(),
            };
            assert(wanted.len() == 1);
            let alts = match wanted[0] {
                Pat::Alternation(alts) => alts,
                _ => Seq::empty(),
            };
            assert(model_branches(branches@) =~= alts);
        }
        inner.push(Token::Alternation(branches));
        assert(model_seq(inner@) =~= seq![model(inner@[0])]);
        inner
    } else {
        tokenize_chars(content)
    };
    (Token::CaptureGroup(0, inner), next)
}

/// Reads the token that starts at index `i`, before any quantifier.
fn read_atom(p: &[char], i: usize) -> (r: (Option<Token>, usize))
    requires
        i < p.len(),
    ensures
        maybe_model(r.0) == atom_at(p@, i as int).0,
        r.1 == i + 1 + atom_at(p@, i as int).1,
        r.1 <= p.len(),
    decreases p.len(), 1nat,
{
    let c = p[i];
    if c == '\\' {
        read_escape(p, i)
    } else if c == '.' {
        (Some(Token::WildCard), i + 1)
    } else if c == '^' {
        (Some(Token::StartAnchor), i + 1)
    } else if c == '$' {
        (Some(Token::EndAnchor), i + 1)
    } else if c == '[' {
        let (tok, next) = read_class(p, i);
        (Some(tok), next)
    } else if c == '(' {
        let (tok, next) = read_group(p, i);
        (Some(tok), next)
    } else {
        (Some(literal(c)), i + 1)
    }
}

/// The token tree of the pattern `p`.
pub fn tokenize_chars(p: &[char]) -> (tokens: Vec<Token>)
    ensures
        model_seq(tokens@) == tokens_of(p@),
    decreases p.len(), 2nat,
{
    let mut tokens: Vec<Token> = Vec::new();
    let mut i: usize = 0;
    assert(model_seq(tokens@) + tokens_from(p@, 0) =~= tokens_of(p@));
    while i < p.len()
        invariant
            i <= p.len(),
            tokens_of(p@) == model_seq(tokens@) + tokens_from(p@, i as int),
        ensures
            tokens_of(p@) == model_seq(tokens@),
        decreases p.len() - i,
    {
        let (atom, behind) = read_atom(p, i);
        match atom {
            Some(tok) => {
                let ghost before = model_seq(tokens@);
                let (whole, next) = with_suffix(p, tok, behind);
                tokens.push(whole);
                proof {
                    assert(model_seq(tokens@) =~= before + seq![model(whole)]);
                    assert(model_seq(tokens@) + tokens_from(p@, next as int) =~= before + (seq![
                        model(whole),
                    ] + tokens_from(p@, next as int)));
                }
                i = next;
            },
            None => {
                assert(model_seq(tokens@) + Seq::<Pat>::empty() =~= model_seq(tokens@));
                break ;
            },
        }
    }
    proof {
        assert(model_seq(tokens@) + Seq::<Pat>::empty() =~= model_seq(tokens@));
    }
    tokens
}

/// The token tree of `pattern`. Every string is a pattern: what is not
/// well formed stands for itself.
pub fn tokenize(pattern: &str) -> (tokens: Vec<Token>)
    ensures
        model_seq(tokens@) == tokens_of(pattern@),
{
    let chars = chars_of(pattern);
    tokenize_chars(chars.as_slice())
}

} // verus!


