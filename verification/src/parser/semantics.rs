//! What it means for a pattern to match: the matcher's mathematical definition.

use vstd::prelude::*;
use crate::parser::types::{Pat, Quantifiers};

verus! {

/// The capture vector as a value: entry `i` is what group `i + 1` holds.
pub type Caps = Seq<Option<Seq<char>>>;

/// The pattern after its first node.
pub open spec fn rest(pats: Seq<Pat>) -> Seq<Pat> {
    pats.subrange(1, pats.len() as int)
}

/// The number of nodes in a pattern node, counting each repetition or group
/// node twice so that its parts are strictly smaller than a sequence led by it.
pub open spec fn pat_size(p: Pat) -> nat
    decreases p, 0int,
{
    match p {
        Pat::Quantifier(inner, _) => 2 + pat_size(*inner),
        Pat::ExactRepetition(inner, _) => 2 + pat_size(*inner),
        Pat::RangeRepetition(inner, _, _) => 2 + pat_size(*inner),
        Pat::CaptureGroup(_, inner) => 2 + seq_size(inner),
        Pat::Alternation(branches) => 2 + branches_size(branches),
        _ => 1,
    }
}

/// The sum of [`pat_size`] over a sequence.
pub open spec fn seq_size(pats: Seq<Pat>) -> nat
    decreases pats, 1int,
{
    if pats.len() == 0 {
        0
    } else {
        pat_size(pats[0]) + seq_size(rest(pats))
    }
}

/// The sum of [`seq_size`] over the branches of an alternation.
pub open spec fn branches_size(branches: Seq<Seq<Pat>>) -> nat
    decreases branches, 2int,
{
    if branches.len() == 0 {
        0
    } else {
        seq_size(branches[0]) + branches_size(branches.subrange(1, branches.len() as int))
    }
}

/// A sequence is larger than its rest, and than the parts of its first node.
pub proof fn lemma_seq_size_unfold(pats: Seq<Pat>)
    requires
        pats.len() > 0,
    ensures
        seq_size(pats) == pat_size(pats[0]) + seq_size(rest(pats)),
        pat_size(pats[0]) >= 1,
        pats[0] matches Pat::Quantifier(inner, _) ==> pat_size(pats[0]) == 2 + pat_size(*inner),
        pats[0] matches Pat::ExactRepetition(inner, _) ==> pat_size(pats[0]) == 2 + pat_size(*inner),
        pats[0] matches Pat::RangeRepetition(inner, _, _) ==> pat_size(pats[0]) == 2 + pat_size(
            *inner,
        ),
        pats[0] matches Pat::CaptureGroup(_, inner) ==> pat_size(pats[0]) == 2 + seq_size(inner),
        pats[0] matches Pat::Alternation(branches) ==> pat_size(pats[0]) == 2 + branches_size(
            branches,
        ),
{
}

/// Sizes add up over concatenation.
pub proof fn lemma_seq_size_concat(a: Seq<Pat>, b: Seq<Pat>)
    ensures
        seq_size(a + b) == seq_size(a) + seq_size(b),
    decreases a.len(),
{
    if a.len() == 0 {
        assert(a + b =~= b);
    } else {
        assert(rest(a + b) =~= rest(a) + b);
        lemma_seq_size_concat(rest(a), b);
    }
}

/// A sequence of one node is as large as the node.
pub proof fn lemma_seq_size_single(p: Pat)
    ensures
        seq_size(seq![p]) == pat_size(p),
{
    assert(rest(seq![p]) =~= Seq::<Pat>::empty());
    assert(seq_size(rest(seq![p])) == 0);
}

/// No branch is larger than the alternation's branches together.
pub proof fn lemma_branch_size(branches: Seq<Seq<Pat>>, i: int)
    requires
        0 <= i < branches.len(),
    ensures
        seq_size(branches[i]) <= branches_size(branches),
    decreases branches.len(),
{
    if i > 0 {
        let tail = branches.subrange(1, branches.len() as int);
        assert(tail[i - 1] == branches[i]);
        lemma_branch_size(tail, i - 1);
    }
}

/// A successful match: how many characters it consumed and the captures it
/// left behind.
pub struct Matched {
    pub len: int,
    pub caps: Caps,
}

/// Where a run of repetitions has got to: the offset reached and the
/// captures there.
pub struct Reached {
    pub pos: int,
    pub caps: Caps,
}

/// The stop positions of a greedy repetition, the start included, and the
/// captures after its last repetition.
pub struct Trail {
    pub stops: Seq<int>,
    pub caps: Caps,
}

/// The tokens that consume exactly one character.
pub open spec fn is_simple(p: Pat) -> bool {
    p is Digit || p is Word || p is Literal || p is WildCard || p is CharGroup
        || p is NegCharGroup
}

/// The decimal digits.
pub open spec fn is_digit(c: char) -> bool {
    '0' <= c <= '9'
}

/// The word characters: ASCII letters, decimal digits and the underscore.
pub open spec fn is_word(c: char) -> bool {
    is_digit(c) || ('a' <= c <= 'z') || ('A' <= c <= 'Z') || c == '_'
}

/// Whether a one-character token accepts `c`. An anchor accepts every
/// character; a composite token accepts none.
pub open spec fn accepts(p: Pat, c: char) -> bool {
    match p {
        Pat::Digit => is_digit(c),
        Pat::Word => is_word(c),
        Pat::Literal(x) => x == c,
        Pat::CharGroup(set) => set.contains(c),
        Pat::NegCharGroup(set) => !set.contains(c),
        Pat::StartAnchor | Pat::EndAnchor => true,
        Pat::WildCard => c != '\n',
        _ => false,
    }
}

/// Whether `input` holds the characters `s` from offset `at` on.
pub open spec fn begins_with(input: Seq<char>, at: int, s: Seq<char>) -> bool {
    0 <= at && at + s.len() <= input.len() && input.subrange(at, at + s.len()) == s
}

/// The captures with group `n` set to `s`, grown with empty entries as far as
/// needed. Group 0 does not exist: setting it changes nothing.
pub open spec fn set_capture(caps: Caps, n: nat, s: Seq<char>) -> Caps {
    if n == 0 {
        caps
    } else {
        let grown = if caps.len() < n {
            caps + Seq::new((n - caps.len()) as nat, |i: int| None::<Seq<char>>)
        } else {
            caps
        };
        grown.update(n - 1, Some(s))
    }
}

/// What group `n` holds, if anything.
pub open spec fn captured(caps: Caps, n: nat) -> Option<Seq<char>> {
    if 1 <= n <= caps.len() {
        caps[n - 1]
    } else {
        None
    }
}

/// `r` with `by` more characters consumed before it.
pub open spec fn shift(r: Option<Matched>, by: int) -> Option<Matched> {
    match r {
        Some(m) => Some(Matched { len: by + m.len, caps: m.caps }),
        None => None,
    }
}

/// How many repetitions beyond the mandatory `min` a range allows.
pub open spec fn extension_limit(min: nat, max: Option<nat>) -> Option<nat> {
    match max {
        Some(m) => Some(if m >= min { (m - min) as nat } else { 0 }),
        None => None,
    }
}

/// The matcher: whether `pats` matches `input` from offset `at` on with the
/// captures `caps`, and if so the length consumed and the captures afterwards.
///
/// The empty pattern matches and consumes nothing. Otherwise the first node
/// decides, and the rest of the pattern has to match behind it:
/// - an anchor holds at offset 0, or at the end of the input, and consumes
///   nothing;
/// - a one-character token consumes one character that it accepts;
/// - a backreference consumes the text that its group holds;
/// - `?` takes its token once if the rest matches then, else not at all;
/// - `+` and `*` repeat their token greedily and then give back one
///   repetition after the other until the rest matches, all with the
///   captures that the repetitions left;
/// - `{n}` takes its token `n` times; `{n,m}` and `{n,}` take it `n` times,
///   then as often as it still matches, up to the limit, and give nothing
///   back;
/// - an alternation takes the first branch that matches together with the
///   rest;
/// - a group tries the lengths that its inside can take, the longest first.
pub open spec fn run(input: Seq<char>, pats: Seq<Pat>, at: int, caps: Caps) -> Option<Matched>
    decreases seq_size(pats), 0nat, 0nat,
{
    if pats.len() == 0 {
        Some(Matched { len: 0, caps })
    } else {
        proof {
            lemma_seq_size_unfold(pats);
        }
        let tail = rest(pats);
        match pats[0] {
            Pat::StartAnchor => if at == 0 {
                run(input, tail, at, caps)
            } else {
                None
            },
            Pat::EndAnchor => if at == input.len() {
                run(input, tail, at, caps)
            } else {
                None
            },
            Pat::Quantifier(inner, q) => {
                if q == Quantifiers::ZeroOrOne {
                    proof {
                        lemma_seq_size_single(*inner);
                    }
                    let skip = run(input, tail, at, caps);
                    match run(input, seq![*inner], at, caps) {
                        Some(one) => match run(input, tail, at + one.len, one.caps) {
                            Some(m) => Some(Matched { len: one.len + m.len, caps: m.caps }),
                            None => skip,
                        },
                        None => skip,
                    }
                } else {
                    let trail = repeat(input, *inner, at, caps, None);
                    let floor: int = if q == Quantifiers::OneOrMore { 1 } else { 0 };
                    stops_from(input, tail, trail.stops, at, trail.caps, trail.stops.len() - 1, floor)
                }
            },
            Pat::ExactRepetition(inner, n) => match exact(input, *inner, at, caps, n) {
                Some(end) => shift(run(input, tail, end.pos, end.caps), end.pos - at),
                None => None,
            },
            Pat::RangeRepetition(inner, min, max) => match exact(input, *inner, at, caps, min) {
                Some(must) => {
                    let trail = repeat(input, *inner, must.pos, must.caps, extension_limit(min, max));
                    let end = trail.stops.last();
                    shift(run(input, tail, end, trail.caps), end - at)
                },
                None => None,
            },
            Pat::Alternation(branches) => alt_from(input, branches, tail, at, caps, 0),
            Pat::CaptureGroup(n, inner) => group_from(input, n, inner, tail, at, caps, input.len() - at),
            Pat::BackReference(n) => match captured(caps, n) {
                Some(s) => if begins_with(input, at, s) {
                    shift(run(input, tail, at + s.len(), caps), s.len() as int)
                } else {
                    None
                },
                None => None,
            },
            _ => if 0 <= at < input.len() && accepts(pats[0], input[at]) {
                shift(run(input, tail, at + 1, caps), 1)
            } else {
                None
            },
        }
    }
}

/// Greedy repetition of `inner` from `at` on: each repetition starts where the
/// one before stopped and with the captures it left. An unlimited repetition
/// ends at the first repetition that fails or consumes nothing; a limited one
/// at the first that fails or when the limit is used up. A repetition that
/// consumed nothing adds no stop, but what it captured stays.
pub open spec fn repeat(input: Seq<char>, inner: Pat, at: int, caps: Caps, limit: Option<nat>) -> Trail
    decreases pat_size(inner) + 1, match limit { Some(k) => k as int, None => input.len() - at }, 0nat,
{
    if limit == Some(0nat) {
        Trail { stops: seq![at], caps }
    } else {
        proof {
            lemma_seq_size_single(inner);
        }
        match run(input, seq![inner], at, caps) {
            Some(one) => {
                if limit is None && !(0 < one.len && at + one.len <= input.len()) {
                    Trail { stops: seq![at], caps: one.caps }
                } else {
                    let next = match limit {
                        Some(k) => Some((k - 1) as nat),
                        None => None,
                    };
                    let more = repeat(input, inner, at + one.len, one.caps, next);
                    Trail { stops: seq![at] + more.stops, caps: more.caps }
                }
            },
            None => Trail { stops: seq![at], caps },
        }
    }
}

/// Exactly `n` repetitions of `inner` in a row from `at` on: the offset
/// reached and the captures there, or nothing if one of them fails.
pub open spec fn exact(input: Seq<char>, inner: Pat, at: int, caps: Caps, n: nat) -> Option<Reached>
    decreases pat_size(inner) + 1, n, 0nat,
{
    if n == 0 {
        Some(Reached { pos: at, caps })
    } else {
        proof {
            lemma_seq_size_single(inner);
        }
        match run(input, seq![inner], at, caps) {
            Some(one) => exact(input, inner, at + one.len, one.caps, (n - 1) as nat),
            None => None,
        }
    }
}

/// The first success of `tail` at one of `stops[k]`, `stops[k - 1]`, ...,
/// `stops[floor]`, in that order, each tried with the captures `caps`; the
/// length is counted from `base`.
pub open spec fn stops_from(
    input: Seq<char>,
    tail: Seq<Pat>,
    stops: Seq<int>,
    base: int,
    caps: Caps,
    k: int,
    floor: int,
) -> Option<Matched>
    decreases seq_size(tail) + 1, k - floor + 1, 0nat,
{
    if k < floor || k < 0 || k >= stops.len() {
        None
    } else {
        match run(input, tail, stops[k], caps) {
            Some(m) => Some(Matched { len: stops[k] - base + m.len, caps: m.caps }),
            None => stops_from(input, tail, stops, base, caps, k - 1, floor),
        }
    }
}

/// The first success among the branches from index `i` on, each followed by
/// `tail`.
pub open spec fn alt_from(
    input: Seq<char>,
    branches: Seq<Seq<Pat>>,
    tail: Seq<Pat>,
    at: int,
    caps: Caps,
    i: int,
) -> Option<Matched>
    decreases branches_size(branches) + seq_size(tail) + 1, branches.len() - i, 0nat,
{
    if i < 0 || i >= branches.len() {
        None
    } else {
        proof {
            lemma_seq_size_concat(branches[i], tail);
            lemma_branch_size(branches, i);
        }
        match run(input, branches[i] + tail, at, caps) {
            Some(m) => Some(m),
            None => alt_from(input, branches, tail, at, caps, i + 1),
        }
    }
}

/// One attempt at group `n` with the capture length `l`: the group's text is
/// recorded, the inner pattern is run once more from `at` to record the
/// groups nested in it, and `tail` has to match behind the `l` characters.
pub open spec fn group_try(
    input: Seq<char>,
    n: nat,
    inner: Seq<Pat>,
    tail: Seq<Pat>,
    at: int,
    caps: Caps,
    l: int,
) -> Option<Matched>
    decreases seq_size(inner) + seq_size(tail) + 1, 0nat, 0nat,
{
    if 0 <= at && 0 <= l && at + l <= input.len() && can_take(input, inner, at, caps, l) {
        match run(input, inner, at, set_capture(caps, n, input.subrange(at, at + l))) {
            Some(nested) => shift(run(input, tail, at + l, nested.caps), l),
            None => None,
        }
    } else {
        None
    }
}

/// The first success of [`group_try`] with the lengths `l`, `l - 1`, ..., `0`.
pub open spec fn group_from(
    input: Seq<char>,
    n: nat,
    inner: Seq<Pat>,
    tail: Seq<Pat>,
    at: int,
    caps: Caps,
    l: int,
) -> Option<Matched>
    decreases seq_size(inner) + seq_size(tail) + 1, 1nat, l + 1,
{
    if l < 0 {
        None
    } else {
        match group_try(input, n, inner, tail, at, caps, l) {
            Some(m) => Some(m),
            None => group_from(input, n, inner, tail, at, caps, l - 1),
        }
    }
}

/// Whether `l` is one of the lengths that `pats` can consume from `at` on:
/// every path through the pattern counts, not only the one [`run`] takes.
/// The stops of a repetition are those of [`repeat`] and [`exact`], started
/// with no captures at all.
pub open spec fn can_take(input: Seq<char>, pats: Seq<Pat>, at: int, caps: Caps, l: int) -> bool
    decreases seq_size(pats), 0nat, 0nat,
{
    if pats.len() == 0 {
        l == 0
    } else {
        proof {
            lemma_seq_size_unfold(pats);
        }
        let tail = rest(pats);
        match pats[0] {
            Pat::StartAnchor => at == 0 && can_take(input, tail, at, caps, l),
            Pat::EndAnchor => at == input.len() && can_take(input, tail, at, caps, l),
            Pat::Quantifier(inner, q) => {
                let limit = if q == Quantifiers::ZeroOrOne { Some(1nat) } else { None };
                let trail = repeat(input, *inner, at, Seq::empty(), limit);
                let floor: int = if q == Quantifiers::OneOrMore { 1 } else { 0 };
                takes_at_stops(input, tail, trail.stops, at, caps, floor, trail.stops.len() as int, l)
            },
            Pat::ExactRepetition(inner, n) => match exact(input, *inner, at, Seq::empty(), n) {
                Some(end) => can_take(input, tail, end.pos, caps, l - (end.pos - at)),
                None => false,
            },
            Pat::RangeRepetition(inner, min, max) => match exact(input, *inner, at, Seq::empty(), min) {
                Some(must) => {
                    let trail = repeat(input, *inner, must.pos, must.caps, extension_limit(min, max));
                    takes_at_stops(input, tail, trail.stops, at, caps, 0, trail.stops.len() as int, l)
                },
                None => false,
            },
            Pat::Alternation(branches) => branch_takes(
                input,
                branches,
                tail,
                at,
                caps,
                branches.len() as int,
                l,
            ),
            Pat::CaptureGroup(n, inner) => group_takes_upto(
                input,
                n,
                inner,
                tail,
                at,
                caps,
                input.len() - at,
                l,
            ),
            Pat::BackReference(n) => match captured(caps, n) {
                Some(s) => begins_with(input, at, s) && can_take(
                    input,
                    tail,
                    at + s.len(),
                    caps,
                    l - s.len(),
                ),
                None => false,
            },
            _ => 0 <= at < input.len() && accepts(pats[0], input[at]) && can_take(
                input,
                tail,
                at + 1,
                caps,
                l - 1,
            ),
        }
    }
}

/// Whether `tail` can take what is left of `l` characters behind one of the
/// stops `stops[lo]`, ..., `stops[hi - 1]`, the lengths counted from `at`.
pub open spec fn takes_at_stops(
    input: Seq<char>,
    tail: Seq<Pat>,
    stops: Seq<int>,
    at: int,
    caps: Caps,
    lo: int,
    hi: int,
    l: int,
) -> bool
    decreases seq_size(tail) + 1, hi - lo + 1, 0nat,
{
    if lo < 0 || hi <= lo || hi > stops.len() {
        false
    } else {
        can_take(input, tail, stops[hi - 1], caps, l - (stops[hi - 1] - at)) || takes_at_stops(
            input,
            tail,
            stops,
            at,
            caps,
            lo,
            hi - 1,
            l,
        )
    }
}

/// Whether one of the first `hi` branches, followed by `tail`, can take `l`
/// characters.
pub open spec fn branch_takes(
    input: Seq<char>,
    branches: Seq<Seq<Pat>>,
    tail: Seq<Pat>,
    at: int,
    caps: Caps,
    hi: int,
    l: int,
) -> bool
    decreases branches_size(branches) + seq_size(tail) + 1, hi + 1, 0nat,
{
    if hi <= 0 || hi > branches.len() {
        false
    } else {
        proof {
            lemma_seq_size_concat(branches[hi - 1], tail);
            lemma_branch_size(branches, hi - 1);
        }
        can_take(input, branches[hi - 1] + tail, at, caps, l) || branch_takes(
            input,
            branches,
            tail,
            at,
            caps,
            hi - 1,
            l,
        )
    }
}

/// Whether group `n` can take some `m` of at most `hi` characters and `tail`
/// the other `l - m`.
pub open spec fn group_takes_upto(
    input: Seq<char>,
    n: nat,
    inner: Seq<Pat>,
    tail: Seq<Pat>,
    at: int,
    caps: Caps,
    hi: int,
    l: int,
) -> bool
    decreases seq_size(inner) + seq_size(tail) + 1, 1nat, hi + 1,
{
    if hi < 0 {
        false
    } else {
        group_takes(input, n, inner, tail, at, caps, hi, l) || group_takes_upto(
            input,
            n,
            inner,
            tail,
            at,
            caps,
            hi - 1,
            l,
        )
    }
}

/// Whether group `n` can take `m` characters and `tail` the other `l - m`,
/// with the captures that the group leaves when it holds those `m` characters.
pub open spec fn group_takes(
    input: Seq<char>,
    n: nat,
    inner: Seq<Pat>,
    tail: Seq<Pat>,
    at: int,
    caps: Caps,
    m: int,
    l: int,
) -> bool
    decreases seq_size(inner) + seq_size(tail) + 1, 0nat, 0nat,
{
    &&& 0 <= at && 0 <= m && at + m <= input.len()
    &&& can_take(input, inner, at, caps, m)
    &&& {
        let held = set_capture(caps, n, input.subrange(at, at + m));
        let after = match run(input, inner, at, held) {
            Some(nested) => nested.caps,
            None => held,
        };
        can_take(input, tail, at + m, after, l - m)
    }
}

} // verus!
