//! The backtracking matcher, proved against its definition in `semantics`.

use vstd::prelude::*;
use crate::parser::semantics::{
    accepts, alt_from, begins_with, branch_takes, branches_size, can_take, exact, extension_limit,
    group_from, group_takes, group_takes_upto, group_try, is_simple, lemma_branch_size,
    lemma_seq_size_concat, lemma_seq_size_single, lemma_seq_size_unfold, pat_size, repeat, rest,
    run, seq_size, set_capture, stops_from, takes_at_stops, Caps, Matched,
};
use crate::parser::types::{clone_tokens, model, model_branches, model_seq, Pat, Quantifiers, Token};
use crate::search::Config;
use crate::text::{chars_of, string_of};

verus! {

/// The capture vector as a value of the model.
pub open spec fn caps_view(captures: Seq<Option<String>>) -> Caps {
    Seq::new(
        captures.len(),
        |i: int|
            match captures[i] {
                Some(s) => Some(s@),
                None => None,
            },
    )
}

/// A copy of the capture vector.
pub fn clone_captures(captures: &Vec<Option<String>>) -> (copy: Vec<Option<String>>)
    ensures
        caps_view(copy@) == caps_view(captures@),
{
    let mut copy: Vec<Option<String>> = Vec::new();
    let mut i: usize = 0;
    while i < captures.len()
        invariant
            i <= captures.len(),
            copy.len() == i,
            forall|j: int| 0 <= j < i ==> caps_view(copy@)[j] == caps_view(captures@)[j],
        decreases captures.len() - i,
    {
        let entry = match &captures[i] {
            Some(s) => Some(s.clone()),
            None => None,
        };
        copy.push(entry);
        i += 1;
    }
    assert(caps_view(copy@) =~= caps_view(captures@));
    copy
}

/// Records `text` as what group `n` holds; a group with index 0 holds nothing.
pub fn record_capture(captures: &mut Vec<Option<String>>, n: usize, text: String)
    ensures
        caps_view(final(captures)@) == set_capture(caps_view(old(captures)@), n as nat, text@),
{
    if n == 0 {
        return ;
    }
    while captures.len() < n
        invariant
            old(captures).len() <= captures.len(),
            captures.len() <= n || captures.len() == old(captures).len(),
            forall|j: int| 0 <= j < old(captures).len() ==> captures@[j] == old(captures)@[j],
            forall|j: int| old(captures).len() <= j < captures.len() ==> captures@[j] is None,
        decreases n - captures.len(),
    {
        captures.push(None);
    }
    captures[n - 1] = Some(text);
    assert(caps_view(captures@) =~= set_capture(caps_view(old(captures)@), n as nat, text@));
}

/// Whether `input` holds the characters of `text` from offset `at` on.
pub fn starts_with_at(input: &[char], at: usize, text: &str) -> (r: bool)
    requires
        at <= input.len(),
    ensures
        r == begins_with(input@, at as int, text@),
{
    let wanted = chars_of(text);
    if wanted.len() > input.len() - at {
        return false;
    }
    let mut i: usize = 0;
    while i < wanted.len()
        invariant
            i <= wanted.len(),
            wanted@ == text@,
            at + wanted.len() <= input.len(),
            forall|j: int| 0 <= j < i ==> input@[at + j] == wanted@[j],
        decreases wanted.len() - i,
    {
        if input[at + i] != wanted[i] {
            assert(input@.subrange(at as int, at + wanted.len())[i as int] != wanted@[i as int]);
            return false;
        }
        i += 1;
    }
    assert(input@.subrange(at as int, at + wanted.len()) =~= wanted@);
    true
}

/// Whether the first character of `input` is one that `token` accepts.
pub fn single_matches(input: &[char], token: &Token) -> (r: bool)
    requires
        is_simple(model(*token)) || *token is StartAnchor || *token is EndAnchor,
    ensures
        r == (input.len() > 0 && accepts(model(*token), input@[0])),
{
    if input.len() == 0 {
        return false;
    }
    let ch = input[0];
    match token {
        Token::Digit => ch >= '0' && ch <= '9',
        Token::Word => (ch >= '0' && ch <= '9') || (ch >= 'a' && ch <= 'z') || (ch >= 'A' && ch
            <= 'Z') || ch == '_',
        Token::Literal(c) => *c == ch,
        Token::CharGroup(set) => contains_char(set, ch),
        Token::NegCharGroup(set) => !contains_char(set, ch),
        Token::WildCard => ch != '\n',
        _ => true,
    }
}

fn contains_char(set: &Vec<char>, ch: char) -> (r: bool)
    ensures
        r == set@.contains(ch),
{
    let mut i: usize = 0;
    while i < set.len()
        invariant
            i <= set.len(),
            forall|j: int| 0 <= j < i ==> set@[j] != ch,
        decreases set.len() - i,
    {
        if set[i] == ch {
            return true;
        }
        i += 1;
    }
    false
}

/// Positions as mathematical integers.
pub open spec fn ints(s: Seq<usize>) -> Seq<int> {
    s.map_values(|x: usize| x as int)
}

/// A repetition limit as the model has it.
pub open spec fn limit_model(limit: Option<usize>) -> Option<nat> {
    match limit {
        Some(k) => Some(k as nat),
        None => None,
    }
}

/// Strictly ascending: sorted, and nothing twice.
pub open spec fn ascending(s: Seq<usize>) -> bool {
    forall|i: int, j: int| 0 <= i < j < s.len() ==> s[i] < s[j]
}

/// The model of a rest is the rest of the model.
pub proof fn lemma_model_rest(tokens: Seq<Token>)
    requires
        tokens.len() > 0,
    ensures
        model_seq(tokens.subrange(1, tokens.len() as int)) == rest(model_seq(tokens)),
        model_seq(tokens)[0] == model(tokens[0]),
{
    assert(model_seq(tokens.subrange(1, tokens.len() as int)) =~= rest(model_seq(tokens)));
}

/// In [`group_from`], lengths that the group cannot take are passed over.
pub proof fn lemma_group_from_skip(
    input: Seq<char>,
    n: nat,
    inner: Seq<Pat>,
    tail: Seq<Pat>,
    at: int,
    caps: Caps,
    hi: int,
    lo: int,
)
    requires
        -1 <= lo <= hi,
        forall|l: int| lo < l <= hi ==> !can_take(input, inner, at, caps, l),
    ensures
        group_from(input, n, inner, tail, at, caps, hi) == group_from(
            input,
            n,
            inner,
            tail,
            at,
            caps,
            lo,
        ),
    decreases hi - lo,
{
    if lo < hi {
        assert(!can_take(input, inner, at, caps, hi));
        assert(group_try(input, n, inner, tail, at, caps, hi) is None);
        lemma_group_from_skip(input, n, inner, tail, at, caps, hi - 1, lo);
    }
}

/// A sequence that holds `b` behind `a`.
pub fn concat_tokens(a: &[Token], b: &[Token]) -> (joined: Vec<Token>)
    ensures
        model_seq(joined@) == model_seq(a@) + model_seq(b@),
{
    let mut joined = clone_tokens(a);
    let mut i: usize = 0;
    while i < b.len()
        invariant
            i <= b.len(),
            joined.len() == a.len() + i,
            forall|j: int| 0 <= j < a.len() ==> model(#[trigger] joined@[j]) == model_seq(a@)[j],
            forall|j: int|
                a.len() <= j < a.len() + i ==> model(#[trigger] joined@[j]) == model(
                    b@[j - a.len()],
                ),
        decreases b.len() - i,
    {
        joined.push(b[i].clone());
        i += 1;
    }
    assert(model_seq(joined@) =~= model_seq(a@) + model_seq(b@));
    joined
}

/// Puts `x` into the ascending vector `v`, unless it is there already.
pub fn insert_sorted(v: &mut Vec<usize>, x: usize)
    requires
        ascending(old(v)@),
    ensures
        ascending(final(v)@),
        forall|y: usize| final(v)@.contains(y) <==> (old(v)@.contains(y) || y == x),
{
    let mut i: usize = 0;
    while i < v.len() && v[i] < x
        invariant
            i <= v.len(),
            v@ == old(v)@,
            forall|j: int| 0 <= j < i ==> v@[j] < x,
        decreases v.len() - i,
    {
        i += 1;
    }
    if i < v.len() && v[i] == x {
        return ;
    }
    v.insert(i, x);
    assert forall|y: usize| final(v)@.contains(y) <==> (old(v)@.contains(y) || y == x) by {
        if old(v)@.contains(y) {
            let j = choose|j: int| 0 <= j < old(v)@.len() && old(v)@[j] == y;
            if j < i {
                assert(v@[j] == y);
            } else {
                assert(v@[j + 1] == y);
            }
        }
        if y == x {
            assert(v@[i as int] == y);
        }
        if v@.contains(y) {
            let j = choose|j: int| 0 <= j < v@.len() && v@[j] == y;
            if j < i {
                assert(old(v)@[j] == y);
            } else if j > i {
                assert(old(v)@[j - 1] == y);
            }
        }
    }
}

/// What [`matches_from_range`] owes for the pattern `pats`: the length that
/// [`run`] gives, with its captures, or no match and the captures as before.
pub open spec fn agrees(
    input: Seq<char>,
    pats: Seq<Pat>,
    at: int,
    before: Caps,
    result: Option<usize>,
    after: Caps,
) -> bool {
    owed(run(input, pats, at, before), input.len() - at, before, result, after)
}

/// What a matching function owes when the model expects `expected`: that
/// length, at most `room`, with its captures; or no match and the captures
/// as before.
pub open spec fn owed(
    expected: Option<Matched>,
    room: int,
    before: Caps,
    result: Option<usize>,
    after: Caps,
) -> bool {
    match expected {
        Some(m) => result == Some(m.len as usize) && 0 <= m.len <= room && after == m.caps,
        None => result is None && after == before,
    }
}

/// A sequence that holds a copy of `token` and nothing else.
fn single(token: &Token) -> (one: Vec<Token>)
    ensures
        model_seq(one@) == seq![model(*token)],
        seq_size(model_seq(one@)) == pat_size(model(*token)),
{
    let mut one: Vec<Token> = Vec::new();
    one.push(token.clone());
    proof {
        assert(model_seq(one@) =~= seq![model(*token)]);
        lemma_seq_size_single(model(*token));
    }
    one
}

/// Repeats `inner` greedily from `at` on and returns the stop positions, the
/// start included. The captures are left as the last repetition left them.
fn repeat_greedy(
    input: &[char],
    inner: &Token,
    at: usize,
    limit: Option<usize>,
    config: Option<&Config>,
    captures: &mut Vec<Option<String>>,
) -> (stops: Vec<usize>)
    requires
        at <= input.len(),
    ensures
        ({
            let trail = repeat(
                input@,
                model(*inner),
                at as int,
                caps_view(old(captures)@),
                limit_model(limit),
            );
            ints(stops@) == trail.stops && caps_view(final(captures)@) == trail.caps
        }),
        stops.len() >= 1,
        stops@[0] == at,
        forall|i: int| 0 <= i < stops.len() ==> at <= #[trigger] stops@[i] <= input.len(),
    decreases pat_size(model(*inner)) + 1, 0nat,
{
    let one = single(inner);
    let mut stops: Vec<usize> = Vec::new();
    stops.push(at);
    let mut pos: usize = at;
    let mut left: Option<usize> = limit;
    let ghost all = repeat(
        input@,
        model(*inner),
        at as int,
        caps_view(captures@),
        limit_model(limit),
    );
    proof {
        assert(ints(stops@).drop_last() =~= Seq::<int>::empty());
        assert(Seq::<int>::empty() + all.stops =~= all.stops);
    }
    loop
        invariant_except_break
            ({
                let sub = repeat(
                    input@,
                    model(*inner),
                    pos as int,
                    caps_view(captures@),
                    limit_model(left),
                );
                all.stops == ints(stops@).drop_last() + sub.stops && all.caps == sub.caps
            }),
        invariant
            model_seq(one@) == seq![model(*inner)],
            seq_size(model_seq(one@)) == pat_size(model(*inner)),
            at <= pos <= input.len(),
            stops.len() >= 1,
            stops@[0] == at,
            stops@[stops.len() - 1] == pos,
            forall|i: int| 0 <= i < stops.len() ==> at <= #[trigger] stops@[i] <= input.len(),
        ensures
            ints(stops@) == all.stops,
            caps_view(captures@) == all.caps,
            stops.len() >= 1,
            stops@[0] == at,
            forall|i: int| 0 <= i < stops.len() ==> at <= #[trigger] stops@[i] <= input.len(),
        decreases
                (match left {
                    Some(k) => k as int,
                    None => input.len() - pos,
                }),
    {
        let ghost before = caps_view(captures@);
        let ghost sub = repeat(input@, model(*inner), pos as int, before, limit_model(left));
        if left == Some(0) {
            assert(ints(stops@).drop_last() + seq![pos as int] =~= ints(stops@));
            break ;
        }
        match matches_from_range(input, one.as_slice(), pos, config, captures) {
            None => {
                assert(ints(stops@).drop_last() + seq![pos as int] =~= ints(stops@));
                break ;
            },
            Some(len) => {
                if left.is_none() && len == 0 {
                    assert(ints(stops@).drop_last() + seq![pos as int] =~= ints(stops@));
                    break ;
                }
                let ghost old_stops = stops@;
                pos = pos + len;
                stops.push(pos);
                left =
                match left {
                    Some(k) => Some(k - 1),
                    None => None,
                };
                proof {
                    let next = repeat(
                        input@,
                        model(*inner),
                        pos as int,
                        caps_view(captures@),
                        limit_model(left),
                    );
                    assert(sub.stops == seq![(pos - len) as int] + next.stops);
                    assert(ints(stops@).drop_last() =~= ints(old_stops));
                    assert(ints(old_stops) =~= ints(old_stops).drop_last() + seq![(pos - len) as int]);
                    assert(all.stops =~= ints(stops@).drop_last() + next.stops);
                }
            },
        }
    }
    stops
}

/// Repeats `inner` exactly `n` times from `at` on and returns the position
/// reached; if a repetition fails, the captures are as they were.
fn exact_times(
    input: &[char],
    inner: &Token,
    at: usize,
    n: usize,
    config: Option<&Config>,
    captures: &mut Vec<Option<String>>,
) -> (end: Option<usize>)
    requires
        at <= input.len(),
    ensures
        match exact(input@, model(*inner), at as int, caps_view(old(captures)@), n as nat) {
            Some(m) => end == Some(m.pos as usize) && at <= m.pos <= input.len() && caps_view(
                final(captures)@,
            ) == m.caps,
            None => end is None && caps_view(final(captures)@) == caps_view(old(captures)@),
        },
    decreases pat_size(model(*inner)) + 1, 0nat,
{
    let one = single(inner);
    let saved = clone_captures(captures);
    let mut pos: usize = at;
    let mut i: usize = 0;
    let ghost all = exact(input@, model(*inner), at as int, caps_view(captures@), n as nat);
    while i < n
        invariant
            model_seq(one@) == seq![model(*inner)],
            seq_size(model_seq(one@)) == pat_size(model(*inner)),
            caps_view(saved@) == caps_view(old(captures)@),
            i <= n,
            at <= pos <= input.len(),
            all == exact(input@, model(*inner), at as int, caps_view(old(captures)@), n as nat),
            all == exact(input@, model(*inner), pos as int, caps_view(captures@), (n - i) as nat),
        decreases n - i,
    {
        let ghost before = caps_view(captures@);
        let ghost here = exact(input@, model(*inner), pos as int, before, (n - i) as nat);
        let ghost step = run(input@, seq![model(*inner)], pos as int, before);
        match matches_from_range(input, one.as_slice(), pos, config, captures) {
            Some(len) => {
                assert(here == exact(
                    input@,
                    model(*inner),
                    pos + len,
                    step->0.caps,
                    (n - i - 1) as nat,
                ));
                pos = pos + len;
            },
            None => {
                assert(here is None);
                *captures = saved;
                return None;
            },
        }
        i += 1;
    }
    Some(pos)
}

/// Matches `tokens` against `input` from the offset `input_index` on, which
/// lies in the input or at its end. Returns the number of characters
/// consumed, with the captures of the groups that matched on the way; or
/// nothing, with the captures as they were. The settings in `config` take no
/// part in matching.
pub fn matches_from_range(
    input: &[char],
    tokens: &[Token],
    input_index: usize,
    config: Option<&Config>,
    captures: &mut Vec<Option<String>>,
) -> (result: Option<usize>)
    requires
        input_index <= input.len(),
    ensures
        agrees(
            input@,
            model_seq(tokens@),
            input_index as int,
            caps_view(old(captures)@),
            result,
            caps_view(final(captures)@),
        ),
    decreases seq_size(model_seq(tokens@)), 1nat,
{
    if tokens.len() == 0 {
        return Some(0);
    }
    let tail = vstd::slice::slice_subrange(tokens, 1, tokens.len());
    let ghost pats = model_seq(tokens@);
    proof {
        lemma_model_rest(tokens@);
        lemma_seq_size_unfold(pats);
    }
    match &tokens[0] {
        Token::StartAnchor => {
            if input_index != 0 {
                return None;
            }
            matches_from_range(input, tail, input_index, config, captures)
        },
        Token::EndAnchor => {
            if input_index != input.len() {
                return None;
            }
            matches_from_range(input, tail, input_index, config, captures)
        },
        Token::Quantifier(inner, q) => {
            match q {
                Quantifiers::ZeroOrOne => {
                    let saved = clone_captures(captures);
                    let one = single(inner);
                    match matches_from_range(input, one.as_slice(), input_index, config, captures) {
                        Some(len) => {
                            match matches_from_range(
                                input,
                                tail,
                                input_index + len,
                                config,
                                captures,
                            ) {
                                Some(rest_len) => {
                                    return Some(len + rest_len);
                                },
                                None => {
                                    *captures = saved;
                                },
                            }
                        },
                        None => {},
                    }
                    matches_from_range(input, tail, input_index, config, captures)
                },
                _ => {
                    let saved = clone_captures(captures);
                    let stops = repeat_greedy(input, inner, input_index, None, config, captures);
                    let floor: usize = match q {
                        Quantifiers::OneOrMore => 1,
                        _ => 0,
                    };
                    let found = try_stops(input, tail, &stops, input_index, floor, config, captures);
                    if found.is_none() {
                        *captures = saved;
                    }
                    found
                },
            }
        },
        Token::ExactRepetition(inner, count) => {
            let saved = clone_captures(captures);
            match exact_times(input, inner, input_index, *count, config, captures) {
                Some(pos) => {
                    match matches_from_range(input, tail, pos, config, captures) {
                        Some(rest_len) => Some(pos - input_index + rest_len),
                        None => {
                            *captures = saved;
                            None
                        },
                    }
                },
                None => None,
            }
        },
        Token::RangeRepetition(inner, min, max) => {
            let saved = clone_captures(captures);
            match exact_times(input, inner, input_index, *min, config, captures) {
                Some(pos) => {
                    let extra = extension(*min, *max);
                    let stops = repeat_greedy(input, inner, pos, extra, config, captures);
                    let end = stops[stops.len() - 1];
                    proof {
                        assert(ints(stops@).last() == end as int);
                    }
                    match matches_from_range(input, tail, end, config, captures) {
                        Some(rest_len) => Some(end - input_index + rest_len),
                        None => {
                            *captures = saved;
                            None
                        },
                    }
                },
                None => None,
            }
        },
        Token::Alternation(branches) => {
            match_alternation(input, branches, tail, input_index, config, captures)
        },
        Token::CaptureGroup(n, inner) => {
            match_group(input, *n, inner, tail, input_index, config, captures)
        },
        Token::BackReference(n) => {
            let n = *n;
            if n == 0 || n > captures.len() {
                return None;
            }
            let held = match &captures[n - 1] {
                Some(text) => {
                    if starts_with_at(input, input_index, text.as_str()) {
                        Some(text.as_str().unicode_len())
                    } else {
                        None
                    }
                },
                None => None,
            };
            match held {
                Some(len) => {
                    match matches_from_range(input, tail, input_index + len, config, captures) {
                        Some(rest_len) => Some(len + rest_len),
                        None => None,
                    }
                },
                None => None,
            }
        },
        _ => {
            if input_index >= input.len() {
                return None;
            }
            let here = vstd::slice::slice_subrange(input, input_index, input.len());
            if !single_matches(here, &tokens[0]) {
                return None;
            }
            match matches_from_range(input, tail, input_index + 1, config, captures) {
                Some(rest_len) => Some(1 + rest_len),
                None => None,
            }
        },
    }
}

/// How many repetitions beyond `min` a range with the upper end `max` allows.
fn extension(min: usize, max: Option<usize>) -> (extra: Option<usize>)
    ensures
        limit_model(extra) == extension_limit(
            min as nat,
            match max {
                Some(m) => Some(m as nat),
                None => None,
            },
        ),
{
    match max {
        Some(m) => Some(if m >= min { m - min } else { 0 }),
        None => None,
    }
}

/// Tries `tail` at the stop positions from the last down to `stops[floor]`.
fn try_stops(
    input: &[char],
    tail: &[Token],
    stops: &Vec<usize>,
    base: usize,
    floor: usize,
    config: Option<&Config>,
    captures: &mut Vec<Option<String>>,
) -> (result: Option<usize>)
    requires
        base <= input.len(),
        forall|i: int| 0 <= i < stops.len() ==> base <= #[trigger] stops@[i] <= input.len(),
    ensures
        owed(
            stops_from(
                input@,
                model_seq(tail@),
                ints(stops@),
                base as int,
                caps_view(old(captures)@),
                stops.len() - 1,
                floor as int,
            ),
            input.len() - base,
            caps_view(old(captures)@),
            result,
            caps_view(final(captures)@),
        ),
    decreases seq_size(model_seq(tail@)) + 1, 0nat,
{
    let mut k: usize = stops.len();
    let ghost caps = caps_view(captures@);
    let ghost all = stops_from(
        input@,
        model_seq(tail@),
        ints(stops@),
        base as int,
        caps,
        stops.len() - 1,
        floor as int,
    );
    while k > floor
        invariant
            k <= stops.len(),
            base <= input.len(),
            forall|i: int| 0 <= i < stops.len() ==> base <= #[trigger] stops@[i] <= input.len(),
            caps_view(captures@) == caps,
            caps == caps_view(old(captures)@),
            all == stops_from(
                input@,
                model_seq(tail@),
                ints(stops@),
                base as int,
                caps,
                stops.len() - 1,
                floor as int,
            ),
            all == stops_from(
                input@,
                model_seq(tail@),
                ints(stops@),
                base as int,
                caps,
                k - 1,
                floor as int,
            ),
        decreases k,
    {
        k -= 1;
        let pos = stops[k];
        assert(ints(stops@)[k as int] == pos as int);
        match matches_from_range(input, tail, pos, config, captures) {
            Some(rest_len) => {
                return Some(pos - base + rest_len);
            },
            None => {},
        }
    }
    None
}

/// Tries the branches in order, each followed by `tail`.
fn match_alternation(
    input: &[char],
    branches: &Vec<Vec<Token>>,
    tail: &[Token],
    at: usize,
    config: Option<&Config>,
    captures: &mut Vec<Option<String>>,
) -> (result: Option<usize>)
    requires
        at <= input.len(),
    ensures
        owed(
            alt_from(
                input@,
                model_branches(branches@),
                model_seq(tail@),
                at as int,
                caps_view(old(captures)@),
                0,
            ),
            input.len() - at,
            caps_view(old(captures)@),
            result,
            caps_view(final(captures)@),
        ),
    decreases branches_size(model_branches(branches@)) + seq_size(model_seq(tail@)) + 1, 0nat,
{
    let ghost caps = caps_view(captures@);
    let ghost alts = model_branches(branches@);
    let ghost all = alt_from(input@, alts, model_seq(tail@), at as int, caps, 0);
    let mut i: usize = 0;
    while i < branches.len()
        invariant
            i <= branches.len(),
            at <= input.len(),
            alts == model_branches(branches@),
            alts.len() == branches.len(),
            caps_view(captures@) == caps,
            caps == caps_view(old(captures)@),
            all == alt_from(input@, alts, model_seq(tail@), at as int, caps, 0),
            all == alt_from(input@, alts, model_seq(tail@), at as int, caps, i as int),
        decreases branches.len() - i,
    {
        let combined = concat_tokens(branches[i].as_slice(), tail);
        proof {
            assert(alts[i as int] == model_seq(branches@[i as int]@));
            lemma_seq_size_concat(alts[i as int], model_seq(tail@));
            lemma_branch_size(alts, i as int);
        }
        match matches_from_range(input, combined.as_slice(), at, config, captures) {
            Some(len) => {
                return Some(len);
            },
            None => {},
        }
        i += 1;
    }
    None
}

/// Tries the lengths that group `n` can take, the longest first.
fn match_group(
    input: &[char],
    n: usize,
    inner: &Vec<Token>,
    tail: &[Token],
    at: usize,
    config: Option<&Config>,
    captures: &mut Vec<Option<String>>,
) -> (result: Option<usize>)
    requires
        at <= input.len(),
    ensures
        owed(
            group_from(
                input@,
                n as nat,
                model_seq(inner@),
                model_seq(tail@),
                at as int,
                caps_view(old(captures)@),
                input.len() - at,
            ),
            input.len() - at,
            caps_view(old(captures)@),
            result,
            caps_view(final(captures)@),
        ),
    decreases seq_size(model_seq(inner@)) + seq_size(model_seq(tail@)) + 1, 0nat,
{
    let lengths = collect_all_match_lengths(input, inner.as_slice(), at, config, captures);
    let ghost caps = caps_view(captures@);
    let ghost body = model_seq(inner@);
    let ghost after = model_seq(tail@);
    let ghost all = group_from(input@, n as nat, body, after, at as int, caps, input.len() - at);
    let ghost mut bound: int = input.len() - at;
    let mut k: usize = lengths.len();
    while k > 0
        invariant
            k <= lengths.len(),
            at <= input.len(),
            body == model_seq(inner@),
            after == model_seq(tail@),
            caps_view(captures@) == caps,
            caps == caps_view(old(captures)@),
            ascending(lengths@),
            forall|i: int| 0 <= i < lengths.len() ==> #[trigger] lengths@[i] <= input.len() - at,
            forall|l: int| can_take(input@, body, at as int, caps, l) <==> holds(lengths@, l),
            -1 <= bound <= input.len() - at,
            forall|i: int| 0 <= i < k ==> lengths@[i] <= bound,
            forall|i: int| k <= i < lengths.len() ==> lengths@[i] > bound,
            all == group_from(input@, n as nat, body, after, at as int, caps, input.len() - at),
            all == group_from(input@, n as nat, body, after, at as int, caps, bound),
        decreases k,
    {
        k -= 1;
        let len = lengths[k];
        proof {
            assert forall|l: int| len < l <= bound implies !can_take(
                input@,
                body,
                at as int,
                caps,
                l,
            ) by {
                if can_take(input@, body, at as int, caps, l) {
                    assert(holds(lengths@, l));
                    let j = choose|j: int| 0 <= j < lengths.len() && lengths@[j] == l as usize;
                    assert(false);
                }
            }
            lemma_group_from_skip(input@, n as nat, body, after, at as int, caps, bound, len as int);
            assert(lengths@[k as int] == len);
            assert(holds(lengths@, len as int));
            assert(can_take(input@, body, at as int, caps, len as int));
        }
        let saved = clone_captures(captures);
        record_capture(captures, n, string_of(input, at, at + len));
        match matches_from_range(input, inner.as_slice(), at, config, captures) {
            Some(_) => {
                match matches_from_range(input, tail, at + len, config, captures) {
                    Some(rest_len) => {
                        return Some(len + rest_len);
                    },
                    None => {
                        *captures = saved;
                    },
                }
            },
            None => {
                *captures = saved;
            },
        }
        proof {
            assert(group_try(input@, n as nat, body, after, at as int, caps, len as int) is None);
            bound = len - 1;
        }
    }
    proof {
        assert forall|l: int| -1 < l <= bound implies !can_take(input@, body, at as int, caps, l) by {
            if can_take(input@, body, at as int, caps, l) {
                assert(holds(lengths@, l));
                let j = choose|j: int| 0 <= j < lengths.len() && lengths@[j] == l as usize;
                assert(false);
            }
        }
        lemma_group_from_skip(input@, n as nat, body, after, at as int, caps, bound, -1);
    }
    None
}

/// The lengths that `tokens` can consume from `input_index` on, over every
/// path through the pattern: ascending, each once.
pub fn collect_all_match_lengths(
    input: &[char],
    tokens: &[Token],
    input_index: usize,
    config: Option<&Config>,
    captures: &Vec<Option<String>>,
) -> (lengths: Vec<usize>)
    requires
        input_index <= input.len(),
    ensures
        ascending(lengths@),
        forall|i: int| 0 <= i < lengths.len() ==> #[trigger] lengths@[i] <= input.len() - input_index,
        forall|l: int|
            can_take(input@, model_seq(tokens@), input_index as int, caps_view(captures@), l)
                <==> holds(lengths@, l),
    decreases seq_size(model_seq(tokens@)), 1nat,
{
    let mut result: Vec<usize> = Vec::new();
    if tokens.len() == 0 {
        result.push(0);
        assert(result@[0] == 0);
        return result;
    }
    let tail = vstd::slice::slice_subrange(tokens, 1, tokens.len());
    let ghost pats = model_seq(tokens@);
    let ghost caps = caps_view(captures@);
    proof {
        lemma_model_rest(tokens@);
        lemma_seq_size_unfold(pats);
    }
    match &tokens[0] {
        Token::StartAnchor => {
            if input_index == 0 {
                return collect_all_match_lengths(input, tail, input_index, config, captures);
            }
            result
        },
        Token::EndAnchor => {
            if input_index == input.len() {
                return collect_all_match_lengths(input, tail, input_index, config, captures);
            }
            result
        },
        Token::Quantifier(inner, q) => {
            let limit: Option<usize> = match q {
                Quantifiers::ZeroOrOne => Some(1),
                _ => None,
            };
            let floor: usize = match q {
                Quantifiers::OneOrMore => 1,
                _ => 0,
            };
            let mut scratch: Vec<Option<String>> = Vec::new();
            assert(caps_view(scratch@) =~= Seq::<Option<Seq<char>>>::empty());
            let stops = repeat_greedy(input, inner, input_index, limit, config, &mut scratch);
            collect_at_stops(input, tail, &stops, input_index, floor, config, captures)
        },
        Token::ExactRepetition(inner, count) => {
            let mut scratch: Vec<Option<String>> = Vec::new();
            assert(caps_view(scratch@) =~= Seq::<Option<Seq<char>>>::empty());
            match exact_times(input, inner, input_index, *count, config, &mut scratch) {
                Some(pos) => {
                    let behind = collect_all_match_lengths(input, tail, pos, config, captures);
                    add_shifted(&mut result, &behind, pos - input_index);
                    proof {
                        lemma_still_in_bounds(
                            result@,
                            Seq::empty(),
                            behind@,
                            pos - input_index,
                            input.len() - input_index,
                        );
                    }
                    result
                },
                None => result,
            }
        },
        Token::RangeRepetition(inner, min, max) => {
            let mut scratch: Vec<Option<String>> = Vec::new();
            assert(caps_view(scratch@) =~= Seq::<Option<Seq<char>>>::empty());
            match exact_times(input, inner, input_index, *min, config, &mut scratch) {
                Some(pos) => {
                    let extra = extension(*min, *max);
                    let mut stops = repeat_greedy(input, inner, pos, extra, config, &mut scratch);
                    collect_at_stops(input, tail, &stops, input_index, 0, config, captures)
                },
                None => result,
            }
        },
        Token::Alternation(branches) => {
            collect_branches(input, branches, tail, input_index, config, captures)
        },
        Token::CaptureGroup(n, inner) => {
            collect_group(input, *n, inner, tail, input_index, config, captures)
        },
        Token::BackReference(n) => {
            let n = *n;
            if n == 0 || n > captures.len() {
                return result;
            }
            match &captures[n - 1] {
                Some(text) => {
                    if starts_with_at(input, input_index, text.as_str()) {
                        let len = text.as_str().unicode_len();
                        let behind = collect_all_match_lengths(
                            input,
                            tail,
                            input_index + len,
                            config,
                            captures,
                        );
                        add_shifted(&mut result, &behind, len);
                        proof {
                            lemma_still_in_bounds(
                                result@,
                                Seq::empty(),
                                behind@,
                                len as int,
                                input.len() - input_index,
                            );
                        }
                    }
                    result
                },
                None => result,
            }
        },
        _ => {
            if input_index >= input.len() {
                return result;
            }
            let here = vstd::slice::slice_subrange(input, input_index, input.len());
            if single_matches(here, &tokens[0]) {
                let behind = collect_all_match_lengths(input, tail, input_index + 1, config, captures);
                add_shifted(&mut result, &behind, 1);
                proof {
                    lemma_still_in_bounds(
                        result@,
                        Seq::empty(),
                        behind@,
                        1,
                        input.len() - input_index,
                    );
                }
            }
            result
        },
    }
}

/// Whether the ascending vector `v` holds the length `l`.
pub open spec fn holds(v: Seq<usize>, l: int) -> bool {
    0 <= l <= usize::MAX && v.contains(l as usize)
}

/// Adds each length of `behind`, increased by `by`, to `result`.
fn add_shifted(result: &mut Vec<usize>, behind: &Vec<usize>, by: usize)
    requires
        ascending(old(result)@),
        forall|i: int| 0 <= i < behind.len() ==> by + #[trigger] behind@[i] <= usize::MAX,
    ensures
        ascending(final(result)@),
        forall|l: int| holds(final(result)@, l) <==> (holds(old(result)@, l) || holds(behind@, l - by)),
{
    let mut i: usize = 0;
    while i < behind.len()
        invariant
            i <= behind.len(),
            ascending(result@),
            forall|j: int| 0 <= j < behind.len() ==> by + #[trigger] behind@[j] <= usize::MAX,
            forall|l: int|
                holds(result@, l) <==> (holds(old(result)@, l) || exists|j: int|
                    0 <= j < i && behind@[j] == l - by),
        decreases behind.len() - i,
    {
        let ghost before = result@;
        insert_sorted(result, by + behind[i]);
        proof {
            assert forall|l: int|
                holds(result@, l) <==> (holds(old(result)@, l) || exists|j: int|
                    0 <= j < i + 1 && behind@[j] == l - by) by {
                if holds(result@, l) {
                    if before.contains(l as usize) {
                        assert(holds(before, l));
                    } else {
                        assert(behind@[i as int] == l - by);
                    }
                }
                if holds(old(result)@, l) {
                    assert(holds(before, l));
                    assert(result@.contains(l as usize));
                }
                if exists|j: int| 0 <= j < i + 1 && behind@[j] == l - by {
                    let j = choose|j: int| 0 <= j < i + 1 && behind@[j] == l - by;
                    if j < i {
                        assert(holds(before, l));
                    }
                    assert(result@.contains(l as usize));
                }
            }
        }
        i += 1;
    }
    proof {
        assert forall|l: int|
            holds(result@, l) <==> (holds(old(result)@, l) || holds(behind@, l - by)) by {
            if holds(behind@, l - by) {
                let j = choose|j: int| 0 <= j < behind@.len() && behind@[j] == (l - by) as usize;
                assert(behind@[j] == l - by);
            }
            if exists|j: int| 0 <= j < i && behind@[j] == l - by {
                let j = choose|j: int| 0 <= j < i && behind@[j] == l - by;
                assert(behind@.contains((l - by) as usize));
            }
        }
    }
}

/// In [`group_takes_upto`], lengths that the group cannot take are passed over.
pub proof fn lemma_group_takes_skip(
    input: Seq<char>,
    n: nat,
    inner: Seq<Pat>,
    tail: Seq<Pat>,
    at: int,
    caps: Caps,
    hi: int,
    lo: int,
    l: int,
)
    requires
        -1 <= lo <= hi,
        forall|m: int| lo < m <= hi ==> !can_take(input, inner, at, caps, m),
    ensures
        group_takes_upto(input, n, inner, tail, at, caps, hi, l) == group_takes_upto(
            input,
            n,
            inner,
            tail,
            at,
            caps,
            lo,
            l,
        ),
    decreases hi - lo,
{
    if lo < hi {
        assert(!can_take(input, inner, at, caps, hi));
        assert(!group_takes(input, n, inner, tail, at, caps, hi, l));
        lemma_group_takes_skip(input, n, inner, tail, at, caps, hi - 1, lo, l);
    }
}

/// Every length in `result` came from `before` or, shifted, from `behind`;
/// so it stays within the input.
proof fn lemma_still_in_bounds(
    result: Seq<usize>,
    before: Seq<usize>,
    behind: Seq<usize>,
    by: int,
    room: int,
)
    requires
        forall|l: int| holds(result, l) <==> (holds(before, l) || holds(behind, l - by)),
        forall|i: int| 0 <= i < before.len() ==> #[trigger] before[i] <= room,
        forall|i: int| 0 <= i < behind.len() ==> by + #[trigger] behind[i] <= room,
    ensures
        forall|i: int| 0 <= i < result.len() ==> #[trigger] result[i] <= room,
{
    assert forall|i: int| 0 <= i < result.len() implies #[trigger] result[i] <= room by {
        let l = result[i] as int;
        assert(holds(result, l));
        if holds(before, l) {
            let j = choose|j: int| 0 <= j < before.len() && before[j] == l as usize;
        } else {
            let j = choose|j: int| 0 <= j < behind.len() && behind[j] == (l - by) as usize;
        }
    }
}

/// The lengths that `tail` can take behind the stops from `stops[floor]` on,
/// counted from `at`.
fn collect_at_stops(
    input: &[char],
    tail: &[Token],
    stops: &Vec<usize>,
    at: usize,
    floor: usize,
    config: Option<&Config>,
    captures: &Vec<Option<String>>,
) -> (lengths: Vec<usize>)
    requires
        at <= input.len(),
        forall|i: int| 0 <= i < stops.len() ==> at <= #[trigger] stops@[i] <= input.len(),
    ensures
        ascending(lengths@),
        forall|i: int| 0 <= i < lengths.len() ==> #[trigger] lengths@[i] <= input.len() - at,
        forall|l: int|
            holds(lengths@, l) <==> takes_at_stops(
                input@,
                model_seq(tail@),
                ints(stops@),
                at as int,
                caps_view(captures@),
                floor as int,
                stops.len() as int,
                l,
            ),
    decreases seq_size(model_seq(tail@)) + 1, 0nat,
{
    let mut result: Vec<usize> = Vec::new();
    let mut k: usize = floor;
    let ghost caps = caps_view(captures@);
    let ghost after = model_seq(tail@);
    let ghost s = ints(stops@);
    while k < stops.len()
        invariant
            floor <= k,
            k <= stops.len() || k == floor,
            at <= input.len(),
            after == model_seq(tail@),
            caps == caps_view(captures@),
            s == ints(stops@),
            forall|i: int| 0 <= i < stops.len() ==> at <= #[trigger] stops@[i] <= input.len(),
            ascending(result@),
            forall|i: int| 0 <= i < result.len() ==> #[trigger] result@[i] <= input.len() - at,
            forall|l: int|
                holds(result@, l) <==> takes_at_stops(
                    input@,
                    after,
                    s,
                    at as int,
                    caps,
                    floor as int,
                    k as int,
                    l,
                ),
        decreases stops.len() - k,
    {
        let pos = stops[k];
        let behind = collect_all_match_lengths(input, tail, pos, config, captures);
        let ghost before = result@;
        add_shifted(&mut result, &behind, pos - at);
        proof {
            assert(s[k as int] == pos as int);
            lemma_still_in_bounds(result@, before, behind@, pos - at, input.len() - at);
            assert forall|l: int|
                holds(result@, l) <==> takes_at_stops(
                    input@,
                    after,
                    s,
                    at as int,
                    caps,
                    floor as int,
                    k + 1,
                    l,
                ) by {
                assert(can_take(input@, after, pos as int, caps, l - (pos - at)) <==> holds(
                    behind@,
                    l - (pos - at),
                ));
            }
        }
        k += 1;
    }
    proof {
        if k > stops.len() {
            assert forall|l: int|
                !takes_at_stops(input@, after, s, at as int, caps, floor as int, k as int, l)
                    && !takes_at_stops(
                    input@,
                    after,
                    s,
                    at as int,
                    caps,
                    floor as int,
                    stops.len() as int,
                    l,
                ) by {}
        }
    }
    result
}

/// The lengths that one of the branches, followed by `tail`, can take.
fn collect_branches(
    input: &[char],
    branches: &Vec<Vec<Token>>,
    tail: &[Token],
    at: usize,
    config: Option<&Config>,
    captures: &Vec<Option<String>>,
) -> (lengths: Vec<usize>)
    requires
        at <= input.len(),
    ensures
        ascending(lengths@),
        forall|i: int| 0 <= i < lengths.len() ==> #[trigger] lengths@[i] <= input.len() - at,
        forall|l: int|
            holds(lengths@, l) <==> branch_takes(
                input@,
                model_branches(branches@),
                model_seq(tail@),
                at as int,
                caps_view(captures@),
                branches.len() as int,
                l,
            ),
    decreases branches_size(model_branches(branches@)) + seq_size(model_seq(tail@)) + 1, 0nat,
{
    let mut result: Vec<usize> = Vec::new();
    let ghost caps = caps_view(captures@);
    let ghost alts = model_branches(branches@);
    let ghost after = model_seq(tail@);
    let mut i: usize = 0;
    while i < branches.len()
        invariant
            i <= branches.len(),
            at <= input.len(),
            alts == model_branches(branches@),
            alts.len() == branches.len(),
            after == model_seq(tail@),
            caps == caps_view(captures@),
            ascending(result@),
            forall|j: int| 0 <= j < result.len() ==> #[trigger] result@[j] <= input.len() - at,
            forall|l: int|
                holds(result@, l) <==> branch_takes(input@, alts, after, at as int, caps, i as int, l),
        decreases branches.len() - i,
    {
        let combined = concat_tokens(branches[i].as_slice(), tail);
        proof {
            assert(alts[i as int] == model_seq(branches@[i as int]@));
            lemma_seq_size_concat(alts[i as int], after);
            lemma_branch_size(alts, i as int);
        }
        let found = collect_all_match_lengths(input, combined.as_slice(), at, config, captures);
        let ghost before = result@;
        add_shifted(&mut result, &found, 0);
        proof {
            lemma_still_in_bounds(result@, before, found@, 0, input.len() - at);
            assert forall|l: int|
                holds(result@, l) <==> branch_takes(input@, alts, after, at as int, caps, i + 1, l) by {
                assert(can_take(input@, alts[i as int] + after, at as int, caps, l) <==> holds(
                    found@,
                    l,
                ));
            }
        }
        i += 1;
    }
    result
}

/// The lengths that group `n` and `tail` behind it can take together.
fn collect_group(
    input: &[char],
    n: usize,
    inner: &Vec<Token>,
    tail: &[Token],
    at: usize,
    config: Option<&Config>,
    captures: &Vec<Option<String>>,
) -> (lengths: Vec<usize>)
    requires
        at <= input.len(),
    ensures
        ascending(lengths@),
        forall|i: int| 0 <= i < lengths.len() ==> #[trigger] lengths@[i] <= input.len() - at,
        forall|l: int|
            holds(lengths@, l) <==> group_takes_upto(
                input@,
                n as nat,
                model_seq(inner@),
                model_seq(tail@),
                at as int,
                caps_view(captures@),
                input.len() - at,
                l,
            ),
    decreases seq_size(model_seq(inner@)) + seq_size(model_seq(tail@)) + 1, 0nat,
{
    let mut result: Vec<usize> = Vec::new();
    let ghost caps = caps_view(captures@);
    let ghost body = model_seq(inner@);
    let ghost after = model_seq(tail@);
    let inner_lengths = collect_all_match_lengths(input, inner.as_slice(), at, config, captures);
    let ghost mut done: int = -1;
    let mut k: usize = 0;
    while k < inner_lengths.len()
        invariant
            k <= inner_lengths.len(),
            at <= input.len(),
            body == model_seq(inner@),
            after == model_seq(tail@),
            caps == caps_view(captures@),
            ascending(inner_lengths@),
            forall|i: int|
                0 <= i < inner_lengths.len() ==> #[trigger] inner_lengths@[i] <= input.len() - at,
            forall|l: int| can_take(input@, body, at as int, caps, l) <==> holds(inner_lengths@, l),
            -1 <= done <= input.len() - at,
            forall|i: int| 0 <= i < k ==> inner_lengths@[i] <= done,
            forall|i: int| k <= i < inner_lengths.len() ==> inner_lengths@[i] > done,
            ascending(result@),
            forall|i: int| 0 <= i < result.len() ==> #[trigger] result@[i] <= input.len() - at,
            forall|l: int|
                holds(result@, l) <==> group_takes_upto(
                    input@,
                    n as nat,
                    body,
                    after,
                    at as int,
                    caps,
                    done,
                    l,
                ),
        decreases inner_lengths.len() - k,
    {
        let len = inner_lengths[k];
        let mut held = clone_captures(captures);
        record_capture(&mut held, n, string_of(input, at, at + len));
        let _ = matches_from_range(input, inner.as_slice(), at, config, &mut held);
        let behind = collect_all_match_lengths(input, tail, at + len, config, &held);
        let ghost before = result@;
        add_shifted(&mut result, &behind, len);
        proof {
            assert(inner_lengths@[k as int] == len);
            assert(holds(inner_lengths@, len as int));
            lemma_still_in_bounds(result@, before, behind@, len as int, input.len() - at);
            assert forall|m: int| done < m <= len - 1 implies !can_take(
                input@,
                body,
                at as int,
                caps,
                m,
            ) by {
                if can_take(input@, body, at as int, caps, m) {
                    assert(holds(inner_lengths@, m));
                    let j = choose|j: int|
                        0 <= j < inner_lengths@.len() && inner_lengths@[j] == m as usize;
                    assert(false);
                }
            }
            assert forall|l: int|
                holds(result@, l) <==> group_takes_upto(
                    input@,
                    n as nat,
                    body,
                    after,
                    at as int,
                    caps,
                    len as int,
                    l,
                ) by {
                lemma_group_takes_skip(
                    input@,
                    n as nat,
                    body,
                    after,
                    at as int,
                    caps,
                    len - 1,
                    done,
                    l,
                );
                assert(group_takes(input@, n as nat, body, after, at as int, caps, len as int, l)
                    <==> holds(behind@, l - len));
            }
            done = len as int;
        }
        k += 1;
    }
    proof {
        assert forall|m: int| done < m <= input.len() - at implies !can_take(
            input@,
            body,
            at as int,
            caps,
            m,
        ) by {
            if can_take(input@, body, at as int, caps, m) {
                assert(holds(inner_lengths@, m));
                let j = choose|j: int| 0 <= j < inner_lengths@.len() && inner_lengths@[j] == m as usize;
                assert(false);
            }
        }
        assert forall|l: int|
            holds(result@, l) <==> group_takes_upto(
                input@,
                n as nat,
                body,
                after,
                at as int,
                caps,
                input.len() - at,
                l,
            ) by {
            lemma_group_takes_skip(
                input@,
                n as nat,
                body,
                after,
                at as int,
                caps,
                input.len() - at,
                done,
                l,
            );
        }
    }
    result
}

/// Whether the pattern starts with the start anchor.
pub open spec fn starts_anchored(pats: Seq<Pat>) -> bool {
    pats.len() > 0 && pats[0] is StartAnchor
}

/// Whether `pats` matches `input` from some offset on, with no captures to
/// begin with. A pattern that starts with the start anchor is tried at
/// offset 0 only; any other at every offset up to the end of the input.
pub open spec fn matches_somewhere(input: Seq<char>, pats: Seq<Pat>) -> bool {
    if starts_anchored(pats) {
        run(input, pats, 0, Seq::empty()) is Some
    } else {
        exists|start: int|
            0 <= start <= input.len() && (#[trigger] run(input, pats, start, Seq::empty())) is Some
    }
}

/// Whether `tokens` matches somewhere in `input`.
pub fn match_tokens(input: &str, tokens: &[Token], config: &Config) -> (found: bool)
    ensures
        found == matches_somewhere(input@, model_seq(tokens@)),
{
    let input_chars = chars_of(input);
    let anchored = tokens.len() > 0 && matches!(tokens[0], Token::StartAnchor);
    let last: usize = if anchored { 0 } else { input_chars.len() };
    let ghost pats = model_seq(tokens@);
    assert(anchored == starts_anchored(pats));
    let mut start: usize = 0;
    while start <= last
        invariant
            start <= last + 1,
            last <= input_chars.len(),
            input_chars@ == input@,
            pats == model_seq(tokens@),
            anchored == starts_anchored(pats),
            last == (if anchored { 0 } else { input_chars.len() }),
            forall|s: int|
                0 <= s < start ==> (#[trigger] run(input@, pats, s, Seq::empty())) is None,
        decreases last + 1 - start,
    {
        let mut captures: Vec<Option<String>> = Vec::new();
        assert(caps_view(captures@) =~= Seq::<Option<Seq<char>>>::empty());
        let matched = matches_from_range(
            input_chars.as_slice(),
            tokens,
            start,
            Some(config),
            &mut captures,
        );
        if matched.is_some() {
            return true;
        }
        if start == last {
            assert(forall|s: int|
                0 <= s <= last ==> (#[trigger] run(input@, pats, s, Seq::empty())) is None);
            return false;
        }
        start += 1;
    }
    false
}

} // verus!
