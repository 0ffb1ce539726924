//! What holds of every pattern and every input: laws of the matcher, proved
//! from its definition.

use vstd::prelude::*;
use crate::parser::grammar::{
    atom_at, distance_to, lemma_distance_bound, suffix_at, tokens_from, tokens_of,
};
use crate::parser::groups::{reached_pat, renumber_pat, renumber_seq};
use crate::parser::matcher::{matches_somewhere, starts_anchored};
use crate::parser::semantics::{
    alt_from, begins_with, branches_size, captured, exact, extension_limit, group_from, group_try,
    lemma_branch_size, lemma_seq_size_concat, lemma_seq_size_single, lemma_seq_size_unfold,
    pat_size, repeat, rest, run, seq_size, set_capture, shift, stops_from, Caps, Matched, Reached,
};
use crate::parser::types::{Pat, Quantifiers};
use crate::search::compiled;

verus! {

/// The empty pattern matches at every offset, consumes nothing and leaves
/// the captures alone; so it matches every line, at offset 0 first.
pub proof fn law_empty_pattern_matches(input: Seq<char>, at: int, caps: Caps)
    ensures
        tokens_of(Seq::empty()) == Seq::<Pat>::empty(),
        compiled(Seq::empty()) == Seq::<Pat>::empty(),
        run(input, Seq::empty(), at, caps) == Some(Matched { len: 0, caps }),
        matches_somewhere(input, Seq::empty()),
{
    assert(tokens_of(Seq::empty()) =~= Seq::<Pat>::empty());
    assert(compiled(Seq::empty()) =~= Seq::<Pat>::empty());
    assert(run(input, Seq::empty(), 0, Seq::empty()) is Some);
}

/// The pattern `^$` is the start anchor followed by the end anchor, and it
/// matches a line if and only if the line is empty.
pub proof fn law_start_end_matches_empty_only(input: Seq<char>)
    ensures
        compiled(seq!['^', '$']) == seq![Pat::StartAnchor, Pat::EndAnchor],
        matches_somewhere(input, seq![Pat::StartAnchor, Pat::EndAnchor]) <==> input.len() == 0,
{
    let p = seq!['^', '$'];
    let pats = seq![Pat::StartAnchor, Pat::EndAnchor];
    assert(tokens_of(p) =~= pats) by {
        assert(atom_at(p, 0) == (Some(Pat::StartAnchor), 0nat));
        assert(suffix_at(p, Pat::StartAnchor, 1) == (Pat::StartAnchor, 0nat));
        assert(atom_at(p, 1) == (Some(Pat::EndAnchor), 0nat));
        assert(suffix_at(p, Pat::EndAnchor, 2) == (Pat::EndAnchor, 0nat));
        assert(tokens_from(p, 2) =~= Seq::<Pat>::empty());
        assert(tokens_from(p, 1) =~= seq![Pat::EndAnchor]);
        assert(tokens_from(p, 0) =~= seq![Pat::StartAnchor] + tokens_from(p, 1));
    }
    assert(compiled(p) =~= pats) by {
        assert(rest(pats) =~= seq![Pat::EndAnchor]);
        assert(rest(seq![Pat::EndAnchor]) =~= Seq::<Pat>::empty());
        assert(renumber_seq(Seq::<Pat>::empty(), 1) =~= Seq::<Pat>::empty());
        assert(renumber_pat(Pat::EndAnchor, 1) == Pat::EndAnchor);
        assert(reached_pat(Pat::EndAnchor) == 0);
        assert(renumber_pat(Pat::StartAnchor, 1) == Pat::StartAnchor);
        assert(reached_pat(Pat::StartAnchor) == 0);
        assert(renumber_seq(seq![Pat::EndAnchor], 1) =~= seq![Pat::EndAnchor]);
        assert(renumber_seq(pats, 1) =~= pats);
    }
    assert(starts_anchored(pats));
    assert(rest(pats) =~= seq![Pat::EndAnchor]);
    assert(rest(seq![Pat::EndAnchor]) =~= Seq::<Pat>::empty());
    let tail = run(input, seq![Pat::EndAnchor], 0, Seq::empty());
    assert(run(input, pats, 0, Seq::empty()) == tail);
    assert(tail is Some <==> input.len() == 0) by {
        assert(run(input, Seq::<Pat>::empty(), 0, Seq::empty()) is Some);
    }
}

/// A repetition of exactly zero times consumes nothing and always succeeds
/// where it stands: the pattern behind it decides alone.
pub proof fn law_zero_repetitions_match_nothing(
    input: Seq<char>,
    inner: Pat,
    tail: Seq<Pat>,
    at: int,
    caps: Caps,
)
    ensures
        run(input, seq![Pat::ExactRepetition(Box::new(inner), 0)] + tail, at, caps) == run(
            input,
            tail,
            at,
            caps,
        ),
        run(input, seq![Pat::ExactRepetition(Box::new(inner), 0)], at, caps) == Some(
            Matched { len: 0, caps },
        ),
{
    let head = Pat::ExactRepetition(Box::new(inner), 0);
    let pats = seq![head] + tail;
    assert(pats[0] == head);
    assert(rest(pats) =~= tail);
    assert(exact(input, inner, at, caps, 0) == Some(Reached { pos: at, caps }));
    assert(shift(run(input, tail, at, caps), 0) == run(input, tail, at, caps));
    assert(seq![head] + Seq::<Pat>::empty() =~= seq![head]);
    assert(rest(seq![head]) =~= Seq::<Pat>::empty());
    assert(run(input, Seq::<Pat>::empty(), at, caps) == Some(Matched { len: 0, caps }));
}

/// An optional token is taken if the pattern behind it matches then; it is
/// left out only if that fails.
pub proof fn law_optional_prefers_one(
    input: Seq<char>,
    inner: Pat,
    tail: Seq<Pat>,
    at: int,
    caps: Caps,
)
    ensures
        ({
            let pats = seq![Pat::Quantifier(Box::new(inner), Quantifiers::ZeroOrOne)] + tail;
            let skipped = run(input, tail, at, caps);
            match run(input, seq![inner], at, caps) {
                Some(one) => match run(input, tail, at + one.len, one.caps) {
                    Some(m) => run(input, pats, at, caps) == Some(
                        Matched { len: one.len + m.len, caps: m.caps },
                    ),
                    None => run(input, pats, at, caps) == skipped,
                },
                None => run(input, pats, at, caps) == skipped,
            }
        }),
{
    let pats = seq![Pat::Quantifier(Box::new(inner), Quantifiers::ZeroOrOne)] + tail;
    assert(pats[0] == Pat::Quantifier(Box::new(inner), Quantifiers::ZeroOrOne));
    assert(rest(pats) =~= tail);
}

/// In [`stops_from`], stops behind which the tail fails are passed over.
proof fn lemma_stops_from_skip(
    input: Seq<char>,
    tail: Seq<Pat>,
    stops: Seq<int>,
    base: int,
    caps: Caps,
    hi: int,
    lo: int,
    floor: int,
)
    requires
        0 <= floor <= lo <= hi < stops.len(),
        forall|c: int| lo < c <= hi ==> (#[trigger] run(input, tail, stops[c], caps)) is None,
    ensures
        stops_from(input, tail, stops, base, caps, hi, floor) == stops_from(
            input,
            tail,
            stops,
            base,
            caps,
            lo,
            floor,
        ),
    decreases hi - lo,
{
    if lo < hi {
        assert(run(input, tail, stops[hi], caps) is None);
        lemma_stops_from_skip(input, tail, stops, base, caps, hi - 1, lo, floor);
    }
}

/// Greedy repetition. For `R+` or `R*` in front of `tail`: among the numbers
/// of repetitions behind which `tail` matches, the matcher takes the
/// greatest. If `tail` matches behind `k` repetitions and behind no more
/// than `k`, the match is `k` repetitions and then `tail`, whether or not
/// `tail` would also match behind fewer.
pub proof fn law_greedy_repetition(
    input: Seq<char>,
    inner: Pat,
    q: Quantifiers,
    tail: Seq<Pat>,
    at: int,
    caps: Caps,
    k: int,
)
    requires
        q != Quantifiers::ZeroOrOne,
        (if q == Quantifiers::OneOrMore { 1int } else { 0int }) <= k < repeat(
            input,
            inner,
            at,
            caps,
            None,
        ).stops.len(),
        ({
            let trail = repeat(input, inner, at, caps, None);
            &&& run(input, tail, trail.stops[k], trail.caps) is Some
            &&& forall|c: int|
                k < c < trail.stops.len() ==> (#[trigger] run(
                    input,
                    tail,
                    trail.stops[c],
                    trail.caps,
                )) is None
        }),
    ensures
        ({
            let trail = repeat(input, inner, at, caps, None);
            let behind = run(input, tail, trail.stops[k], trail.caps)->0;
            run(input, seq![Pat::Quantifier(Box::new(inner), q)] + tail, at, caps) == Some(
                Matched { len: trail.stops[k] - at + behind.len, caps: behind.caps },
            )
        }),
{
    let head = Pat::Quantifier(Box::new(inner), q);
    let pats = seq![head] + tail;
    let trail = repeat(input, inner, at, caps, None);
    let floor: int = if q == Quantifiers::OneOrMore { 1 } else { 0 };
    assert(pats[0] == head);
    assert(rest(pats) =~= tail);
    lemma_stops_from_skip(input, tail, trail.stops, at, trail.caps, trail.stops.len() - 1, k, floor);
    assert(run(input, pats, at, caps) == stops_from(
        input,
        tail,
        trail.stops,
        at,
        trail.caps,
        trail.stops.len() - 1,
        floor,
    ));
}

/// Backreference consistency. Where a match passes a backreference to group
/// `n`, the group holds a text, the input holds that very text at the
/// backreference's position, and the match goes on behind it.
pub proof fn law_backreference_reads_capture(
    input: Seq<char>,
    n: nat,
    tail: Seq<Pat>,
    at: int,
    caps: Caps,
)
    requires
        run(input, seq![Pat::BackReference(n)] + tail, at, caps) is Some,
    ensures
        captured(caps, n) is Some,
        begins_with(input, at, captured(caps, n)->0),
        run(input, seq![Pat::BackReference(n)] + tail, at, caps) == shift(
            run(input, tail, at + captured(caps, n)->0.len(), caps),
            captured(caps, n)->0.len() as int,
        ),
{
    let pats = seq![Pat::BackReference(n)] + tail;
    assert(pats[0] == Pat::BackReference(n));
    assert(rest(pats) =~= tail);
}

/// A length at which [`group_from`] succeeds, when it does.
proof fn lemma_group_from_found(
    input: Seq<char>,
    n: nat,
    inner: Seq<Pat>,
    tail: Seq<Pat>,
    at: int,
    caps: Caps,
    hi: int,
) -> (l: int)
    requires
        group_from(input, n, inner, tail, at, caps, hi) is Some,
    ensures
        0 <= l <= hi,
        group_try(input, n, inner, tail, at, caps, l) == group_from(input, n, inner, tail, at, caps, hi),
    decreases hi + 1,
{
    if group_try(input, n, inner, tail, at, caps, hi) is Some {
        hi
    } else {
        lemma_group_from_found(input, n, inner, tail, at, caps, hi - 1)
    }
}

/// Backreference consistency for a group and its backreference. Where group
/// `n` followed by a backreference to it matches, the text that the group
/// holds afterwards stands in the input at the backreference's position,
/// behind the `l` characters that the group took.
pub proof fn law_group_then_backreference(
    input: Seq<char>,
    n: nat,
    inner: Seq<Pat>,
    at: int,
    caps: Caps,
) -> (l: int)
    requires
        run(input, seq![Pat::CaptureGroup(n, inner), Pat::BackReference(n)], at, caps) is Some,
    ensures
        ({
            let m = run(
                input,
                seq![Pat::CaptureGroup(n, inner), Pat::BackReference(n)],
                at,
                caps,
            )->0;
            &&& 0 <= l
            &&& captured(m.caps, n) is Some
            &&& begins_with(input, at + l, captured(m.caps, n)->0)
            &&& m.len == l + captured(m.caps, n)->0.len()
        }),
{
    let pats = seq![Pat::CaptureGroup(n, inner), Pat::BackReference(n)];
    let tail = seq![Pat::BackReference(n)];
    assert(rest(pats) =~= tail);
    let l = lemma_group_from_found(input, n, inner, tail, at, caps, input.len() - at);
    let held = set_capture(caps, n, input.subrange(at, at + l));
    let nested = run(input, inner, at, held)->0;
    assert(tail =~= seq![Pat::BackReference(n)] + Seq::<Pat>::empty());
    law_backreference_reads_capture(input, n, Seq::empty(), at + l, nested.caps);
    assert(run(input, Seq::<Pat>::empty(), at + l + captured(nested.caps, n)->0.len(), nested.caps)
        == Some(Matched { len: 0, caps: nested.caps }));
    l
}

proof fn lemma_none_before_distance(p: Seq<char>, i: int, c: char, k: int)
    requires
        0 <= i <= k < i + distance_to(p, i, c),
    ensures
        k < p.len(),
        p[k] != c,
    decreases k - i,
{
    if k > i {
        lemma_none_before_distance(p, i + 1, c, k);
    }
}

/// A character class ends at the first `]` behind its opening: the class
/// never holds a `]`, not even as its first character.
pub proof fn law_class_holds_no_closing_bracket(p: Seq<char>, i: int)
    requires
        0 <= i < p.len(),
        p[i] == '[',
    ensures
        match atom_at(p, i).0 {
            Some(Pat::CharGroup(set)) => !set.contains(']'),
            Some(Pat::NegCharGroup(set)) => !set.contains(']'),
            _ => false,
        },
{
    let negated = i + 1 < p.len() && p[i + 1] == '^';
    let start = if negated { i + 2 } else { i + 1 };
    let count = distance_to(p, start, ']');
    let set = p.subrange(start, start + count);
    lemma_distance_bound(p, start, ']');
    assert forall|k: int| 0 <= k < set.len() implies set[k] != ']' by {
        lemma_none_before_distance(p, start, ']', start + k);
    }
}

/// Whether a match, if there is one, takes between 0 and `room` characters.
pub open spec fn within(r: Option<Matched>, room: int) -> bool {
    r matches Some(m) ==> 0 <= m.len <= room
}

proof fn lemma_run_within(input: Seq<char>, pats: Seq<Pat>, at: int, caps: Caps)
    requires
        0 <= at <= input.len(),
    ensures
        within(run(input, pats, at, caps), input.len() - at),
    decreases seq_size(pats), 0nat, 0nat,
{
    if pats.len() > 0 {
        lemma_seq_size_unfold(pats);
        let tail = rest(pats);
        match pats[0] {
            Pat::StartAnchor => {
                lemma_run_within(input, tail, at, caps);
            },
            Pat::EndAnchor => {
                lemma_run_within(input, tail, at, caps);
            },
            Pat::Quantifier(inner, q) => {
                if q == Quantifiers::ZeroOrOne {
                    lemma_seq_size_single(*inner);
                    lemma_run_within(input, tail, at, caps);
                    lemma_run_within(input, seq![*inner], at, caps);
                    match run(input, seq![*inner], at, caps) {
                        Some(one) => {
                            lemma_run_within(input, tail, at + one.len, one.caps);
                        },
                        None => {},
                    }
                } else {
                    lemma_repeat_within(input, *inner, at, caps, None);
                    let trail = repeat(input, *inner, at, caps, None);
                    let floor: int = if q == Quantifiers::OneOrMore { 1 } else { 0 };
                    lemma_stops_from_within(
                        input,
                        tail,
                        trail.stops,
                        at,
                        trail.caps,
                        trail.stops.len() - 1,
                        floor,
                    );
                }
            },
            Pat::ExactRepetition(inner, n) => {
                lemma_exact_within(input, *inner, at, caps, n);
                match exact(input, *inner, at, caps, n) {
                    Some(end) => {
                        lemma_run_within(input, tail, end.pos, end.caps);
                    },
                    None => {},
                }
            },
            Pat::RangeRepetition(inner, min, max) => {
                lemma_exact_within(input, *inner, at, caps, min);
                match exact(input, *inner, at, caps, min) {
                    Some(must) => {
                        let limit = extension_limit(min, max);
                        lemma_repeat_within(input, *inner, must.pos, must.caps, limit);
                        let trail = repeat(input, *inner, must.pos, must.caps, limit);
                        lemma_run_within(input, tail, trail.stops.last(), trail.caps);
                    },
                    None => {},
                }
            },
            Pat::Alternation(branches) => {
                lemma_alt_from_within(input, branches, tail, at, caps, 0);
            },
            Pat::CaptureGroup(n, inner) => {
                lemma_group_from_within(input, n, inner, tail, at, caps, input.len() - at);
            },
            Pat::BackReference(n) => {
                match captured(caps, n) {
                    Some(s) => {
                        if begins_with(input, at, s) {
                            lemma_run_within(input, tail, at + s.len(), caps);
                        }
                    },
                    None => {},
                }
            },
            _ => {
                if at < input.len() {
                    lemma_run_within(input, tail, at + 1, caps);
                }
            },
        }
    }
}

proof fn lemma_repeat_within(input: Seq<char>, inner: Pat, at: int, caps: Caps, limit: Option<nat>)
    requires
        0 <= at <= input.len(),
    ensures
        repeat(input, inner, at, caps, limit).stops.len() >= 1,
        repeat(input, inner, at, caps, limit).stops[0] == at,
        forall|i: int|
            0 <= i < repeat(input, inner, at, caps, limit).stops.len() ==> at <= (#[trigger] repeat(
                input,
                inner,
                at,
                caps,
                limit,
            ).stops[i]) <= input.len(),
    decreases
            pat_size(inner) + 1,
            (match limit {
                Some(k) => k as int,
                None => input.len() - at,
            }),
            0nat,
{
    if limit != Some(0nat) {
        lemma_seq_size_single(inner);
        lemma_run_within(input, seq![inner], at, caps);
        match run(input, seq![inner], at, caps) {
            Some(one) => {
                if !(limit is None && !(0 < one.len && at + one.len <= input.len())) {
                    let next = match limit {
                        Some(k) => Some((k - 1) as nat),
                        None => None,
                    };
                    lemma_repeat_within(input, inner, at + one.len, one.caps, next);
                    let more = repeat(input, inner, at + one.len, one.caps, next);
                    let all = repeat(input, inner, at, caps, limit);
                    assert(all.stops =~= seq![at] + more.stops);
                    assert forall|i: int| 0 <= i < all.stops.len() implies at <= (
                    #[trigger] all.stops[i]) <= input.len() by {
                        if i > 0 {
                            assert(all.stops[i] == more.stops[i - 1]);
                        }
                    }
                }
            },
            None => {},
        }
    }
}

proof fn lemma_exact_within(input: Seq<char>, inner: Pat, at: int, caps: Caps, n: nat)
    requires
        0 <= at <= input.len(),
    ensures
        exact(input, inner, at, caps, n) matches Some(end) ==> at <= end.pos <= input.len(),
    decreases pat_size(inner) + 1, n, 0nat,
{
    if n > 0 {
        lemma_seq_size_single(inner);
        lemma_run_within(input, seq![inner], at, caps);
        match run(input, seq![inner], at, caps) {
            Some(one) => {
                lemma_exact_within(input, inner, at + one.len, one.caps, (n - 1) as nat);
            },
            None => {},
        }
    }
}

proof fn lemma_stops_from_within(
    input: Seq<char>,
    tail: Seq<Pat>,
    stops: Seq<int>,
    base: int,
    caps: Caps,
    k: int,
    floor: int,
)
    requires
        0 <= base,
        forall|i: int| 0 <= i < stops.len() ==> base <= (#[trigger] stops[i]) <= input.len(),
    ensures
        within(stops_from(input, tail, stops, base, caps, k, floor), input.len() - base),
    decreases seq_size(tail) + 1, k - floor + 1, 0nat,
{
    if !(k < floor || k < 0 || k >= stops.len()) {
        lemma_run_within(input, tail, stops[k], caps);
        if run(input, tail, stops[k], caps) is None {
            lemma_stops_from_within(input, tail, stops, base, caps, k - 1, floor);
        }
    }
}

proof fn lemma_alt_from_within(
    input: Seq<char>,
    branches: Seq<Seq<Pat>>,
    tail: Seq<Pat>,
    at: int,
    caps: Caps,
    i: int,
)
    requires
        0 <= at <= input.len(),
    ensures
        within(alt_from(input, branches, tail, at, caps, i), input.len() - at),
    decreases branches_size(branches) + seq_size(tail) + 1, branches.len() - i, 0nat,
{
    if 0 <= i < branches.len() {
        lemma_seq_size_concat(branches[i], tail);
        lemma_branch_size(branches, i);
        lemma_run_within(input, branches[i] + tail, at, caps);
        if run(input, branches[i] + tail, at, caps) is None {
            lemma_alt_from_within(input, branches, tail, at, caps, i + 1);
        }
    }
}

proof fn lemma_group_from_within(
    input: Seq<char>,
    n: nat,
    inner: Seq<Pat>,
    tail: Seq<Pat>,
    at: int,
    caps: Caps,
    l: int,
)
    requires
        0 <= at <= input.len(),
    ensures
        within(group_from(input, n, inner, tail, at, caps, l), input.len() - at),
    decreases seq_size(inner) + seq_size(tail) + 1, 1nat, l + 1,
{
    if l >= 0 {
        let attempt = group_try(input, n, inner, tail, at, caps, l);
        if attempt is Some {
            let held = set_capture(caps, n, input.subrange(at, at + l));
            let nested = run(input, inner, at, held)->0;
            lemma_run_within(input, tail, at + l, nested.caps);
        } else {
            lemma_group_from_within(input, n, inner, tail, at, caps, l - 1);
        }
    }
}

/// A match stays within the input: from an offset in the input, it takes
/// no fewer than 0 characters and no more than are left.
pub proof fn law_match_stays_within_input(input: Seq<char>, pats: Seq<Pat>, at: int, caps: Caps)
    requires
        0 <= at <= input.len(),
    ensures
        run(input, pats, at, caps) matches Some(m) ==> 0 <= m.len <= input.len() - at,
{
    lemma_run_within(input, pats, at, caps);
}

} // verus!
