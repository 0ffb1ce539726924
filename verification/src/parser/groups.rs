//! Group numbering: each capturing group gets its index, in source order.

use vstd::prelude::*;
use crate::parser::grammar::{
    atom_at, digit_run, group_span, lemma_distance_bound, lemma_group_span_bound,
    lemma_split_from_lengths, split_spec, suffix_at, tokens_from, tokens_of,
};
use crate::parser::semantics::{lemma_branch_size, pat_size, rest, seq_size};
use crate::parser::types::{model, model_branches, model_seq, Pat, Token};

verus! {

/// How many capturing groups the numbering reaches in `p`. Of an alternation
/// it walks the first branch only.
pub open spec fn reached_pat(p: Pat) -> nat
    decreases p, 0int,
{
    match p {
        Pat::CaptureGroup(_, inner) => 1 + reached_seq(inner),
        Pat::Alternation(branches) => if branches.len() > 0 {
            reached_seq(branches[0])
        } else {
            0
        },
        Pat::Quantifier(inner, _) => reached_pat(*inner),
        Pat::ExactRepetition(inner, _) => reached_pat(*inner),
        Pat::RangeRepetition(inner, _, _) => reached_pat(*inner),
        _ => 0,
    }
}

/// How many capturing groups the numbering reaches in `pats`.
pub open spec fn reached_seq(pats: Seq<Pat>) -> nat
    decreases pats, 1int,
{
    if pats.len() == 0 {
        0
    } else {
        reached_pat(pats[0]) + reached_seq(rest(pats))
    }
}

/// The node `p` with the groups that the numbering reaches numbered from
/// `start` on, each before the groups inside it.
pub open spec fn renumber_pat(p: Pat, start: nat) -> Pat
    decreases p, 0int,
{
    match p {
        Pat::CaptureGroup(_, inner) => Pat::CaptureGroup(start, renumber_seq(inner, start + 1)),
        Pat::Alternation(branches) => if branches.len() > 0 {
            Pat::Alternation(branches.update(0, renumber_seq(branches[0], start)))
        } else {
            p
        },
        Pat::Quantifier(inner, q) => Pat::Quantifier(Box::new(renumber_pat(*inner, start)), q),
        Pat::ExactRepetition(inner, n) => Pat::ExactRepetition(
            Box::new(renumber_pat(*inner, start)),
            n,
        ),
        Pat::RangeRepetition(inner, min, max) => Pat::RangeRepetition(
            Box::new(renumber_pat(*inner, start)),
            min,
            max,
        ),
        _ => p,
    }
}

/// The sequence `pats` with the groups that the numbering reaches numbered
/// from `start` on, from left to right.
pub open spec fn renumber_seq(pats: Seq<Pat>, start: nat) -> Seq<Pat>
    decreases pats, 1int,
{
    if pats.len() == 0 {
        pats
    } else {
        seq![renumber_pat(pats[0], start)] + renumber_seq(
            rest(pats),
            start + reached_pat(pats[0]),
        )
    }
}

/// No node is larger than the sequence it stands in.
proof fn lemma_element_size(pats: Seq<Pat>, i: int)
    requires
        0 <= i < pats.len(),
    ensures
        pat_size(pats[i]) <= seq_size(pats),
    decreases pats.len(),
{
    if i > 0 {
        assert(rest(pats)[i - 1] == pats[i]);
        lemma_element_size(rest(pats), i - 1);
    }
}

/// Numbers the groups of one token from `*group_counter` on.
fn number_token(token: &mut Token, group_counter: &mut usize)
    requires
        *old(group_counter) + reached_pat(model(*old(token))) <= usize::MAX,
    ensures
        model(*final(token)) == renumber_pat(model(*old(token)), *old(group_counter) as nat),
        *final(group_counter) == *old(group_counter) + reached_pat(model(*old(token))),
    decreases pat_size(model(*old(token))), 0nat,
{
    match token {
        Token::CaptureGroup(group_num, inner_tokens) => {
            *group_num = *group_counter;
            *group_counter += 1;
            assign_group_numbers(inner_tokens.as_mut_slice(), group_counter);
        },
        Token::Alternation(branches) => {
            let ghost before = model_branches(branches@);
            if branches.len() > 0 {
                proof {
                    lemma_branch_size(before, 0);
                }
                let first = &mut branches[0];
                assign_group_numbers(first.as_mut_slice(), group_counter);
                assert(model_branches(branches@) =~= before.update(0, model_seq(branches@[0]@)));
            }
        },
        Token::Quantifier(inner, _) => {
            number_token(&mut **inner, group_counter);
        },
        Token::ExactRepetition(inner, _) => {
            number_token(&mut **inner, group_counter);
        },
        Token::RangeRepetition(inner, _, _) => {
            number_token(&mut **inner, group_counter);
        },
        _ => {},
    }
}

/// Gives each capturing group that the walk reaches its index: from
/// `*group_counter` on, in source order, a group before the groups inside it.
/// Of an alternation only the first branch is walked.
pub fn assign_group_numbers(tokens: &mut [Token], group_counter: &mut usize)
    requires
        *old(group_counter) + reached_seq(model_seq(old(tokens)@)) <= usize::MAX,
    ensures
        model_seq(final(tokens)@) == renumber_seq(
            model_seq(old(tokens)@),
            *old(group_counter) as nat,
        ),
        *final(group_counter) == *old(group_counter) + reached_seq(model_seq(old(tokens)@)),
    decreases seq_size(model_seq(old(tokens)@)), 1nat,
{
    let ghost all = model_seq(old(tokens)@);
    let ghost first = *old(group_counter) as nat;
    let mut i: usize = 0;
    proof {
        assert(all.subrange(0, all.len() as int) =~= all);
        assert(model_seq(tokens@).take(0) + renumber_seq(all, first) =~= renumber_seq(all, first));
    }
    while i < tokens.len()
        invariant
            i <= tokens.len(),
            tokens.len() == old(tokens).len(),
            all == model_seq(old(tokens)@),
            first == *old(group_counter),
            forall|j: int| i <= j < tokens.len() ==> tokens@[j] == old(tokens)@[j],
            *group_counter + reached_seq(all.subrange(i as int, all.len() as int)) == first
                + reached_seq(all),
            first + reached_seq(all) <= usize::MAX,
            renumber_seq(all, first) == model_seq(tokens@).take(i as int) + renumber_seq(
                all.subrange(i as int, all.len() as int),
                *group_counter as nat,
            ),
        decreases tokens.len() - i,
    {
        let ghost left = all.subrange(i as int, all.len() as int);
        let ghost before = model_seq(tokens@);
        let ghost counter = *group_counter as nat;
        proof {
            assert(left[0] == all[i as int]);
            assert(rest(left) =~= all.subrange(i + 1, all.len() as int));
            assert(all[i as int] == model(tokens@[i as int]));
            lemma_element_size(all, i as int);
        }
        number_token(&mut tokens[i], group_counter);
        proof {
            let now = model_seq(tokens@);
            assert(now.take(i + 1) =~= before.take(i as int) + seq![renumber_pat(all[i as int], counter)]);
            assert(now.take(i + 1) + renumber_seq(rest(left), *group_counter as nat) =~= before.take(
                i as int,
            ) + renumber_seq(left, counter));
        }
        i += 1;
    }
    proof {
        assert(model_seq(tokens@).take(i as int) =~= model_seq(tokens@));
        assert(all.subrange(i as int, all.len() as int) =~= Seq::<Pat>::empty());
        assert(model_seq(tokens@) + Seq::<Pat>::empty() =~= model_seq(tokens@));
    }
}

/// The indices of the capturing groups of `p`, every branch included, in
/// source order: a group before the groups inside it.
pub open spec fn indices_pat(p: Pat) -> Seq<nat>
    decreases p, 0int,
{
    match p {
        Pat::CaptureGroup(n, inner) => seq![n] + indices_seq(inner),
        Pat::Alternation(branches) => indices_branches(branches),
        Pat::Quantifier(inner, _) => indices_pat(*inner),
        Pat::ExactRepetition(inner, _) => indices_pat(*inner),
        Pat::RangeRepetition(inner, _, _) => indices_pat(*inner),
        _ => Seq::empty(),
    }
}

/// The indices of the capturing groups of `pats`, in source order.
pub open spec fn indices_seq(pats: Seq<Pat>) -> Seq<nat>
    decreases pats, 1int,
{
    if pats.len() == 0 {
        Seq::empty()
    } else {
        indices_pat(pats[0]) + indices_seq(rest(pats))
    }
}

/// The indices of the capturing groups of the branches, in source order.
pub open spec fn indices_branches(branches: Seq<Seq<Pat>>) -> Seq<nat>
    decreases branches, 2int,
{
    if branches.len() == 0 {
        Seq::empty()
    } else {
        indices_seq(branches[0]) + indices_branches(branches.subrange(1, branches.len() as int))
    }
}

/// Whether the numbering reaches every capturing group of `p`: no alternation
/// holds a group behind its first branch.
pub open spec fn all_reached_pat(p: Pat) -> bool
    decreases p, 0int,
{
    match p {
        Pat::CaptureGroup(_, inner) => all_reached_seq(inner),
        Pat::Alternation(branches) => branches.len() == 0 || (all_reached_seq(branches[0])
            && indices_branches(branches.subrange(1, branches.len() as int)).len() == 0),
        Pat::Quantifier(inner, _) => all_reached_pat(*inner),
        Pat::ExactRepetition(inner, _) => all_reached_pat(*inner),
        Pat::RangeRepetition(inner, _, _) => all_reached_pat(*inner),
        _ => true,
    }
}

/// Whether the numbering reaches every capturing group of `pats`.
pub open spec fn all_reached_seq(pats: Seq<Pat>) -> bool
    decreases pats, 1int,
{
    pats.len() == 0 || (all_reached_pat(pats[0]) && all_reached_seq(rest(pats)))
}

/// The `count` numbers from `start` on.
pub open spec fn counting(start: nat, count: nat) -> Seq<nat> {
    Seq::new(count, |i: int| (start + i) as nat)
}

proof fn lemma_numbered_pat(p: Pat, start: nat)
    requires
        all_reached_pat(p),
    ensures
        indices_pat(p).len() == reached_pat(p),
        indices_pat(renumber_pat(p, start)) == counting(start, reached_pat(p)),
    decreases p, 0int,
{
    match p {
        Pat::CaptureGroup(_, inner) => {
            lemma_numbered_seq(inner, start + 1);
            assert(seq![start] + counting(start + 1, reached_seq(inner)) =~= counting(
                start,
                reached_pat(p),
            ));
        },
        Pat::Alternation(branches) => {
            if branches.len() > 0 {
                lemma_numbered_seq(branches[0], start);
                let later = branches.subrange(1, branches.len() as int);
                let changed = branches.update(0, renumber_seq(branches[0], start));
                assert(changed.subrange(1, changed.len() as int) =~= later);
                assert(indices_branches(later) =~= Seq::<nat>::empty());
                assert(indices_branches(branches) =~= indices_seq(branches[0]));
                assert(indices_branches(changed) =~= counting(start, reached_pat(p)));
            } else {
                assert(indices_branches(branches) =~= counting(start, 0));
            }
        },
        Pat::Quantifier(inner, _) => {
            lemma_numbered_pat(*inner, start);
        },
        Pat::ExactRepetition(inner, _) => {
            lemma_numbered_pat(*inner, start);
        },
        Pat::RangeRepetition(inner, _, _) => {
            lemma_numbered_pat(*inner, start);
        },
        _ => {
            assert(indices_pat(p) =~= counting(start, 0));
        },
    }
}

proof fn lemma_numbered_seq(pats: Seq<Pat>, start: nat)
    requires
        all_reached_seq(pats),
    ensures
        indices_seq(pats).len() == reached_seq(pats),
        indices_seq(renumber_seq(pats, start)) == counting(start, reached_seq(pats)),
    decreases pats, 1int,
{
    if pats.len() == 0 {
        assert(indices_seq(pats) =~= counting(start, 0));
    } else {
        let head = reached_pat(pats[0]);
        lemma_numbered_pat(pats[0], start);
        lemma_numbered_seq(rest(pats), start + head);
        let done = renumber_seq(pats, start);
        assert(done[0] == renumber_pat(pats[0], start));
        assert(rest(done) =~= renumber_seq(rest(pats), start + head));
        assert(counting(start, head) + counting(start + head, reached_seq(rest(pats))) =~= counting(
            start,
            reached_seq(pats),
        ));
    }
}

/// The indices of the capturing groups that the numbering reaches in `p`, in
/// source order.
pub open spec fn reached_indices_pat(p: Pat) -> Seq<nat>
    decreases p, 0int,
{
    match p {
        Pat::CaptureGroup(n, inner) => seq![n] + reached_indices_seq(inner),
        Pat::Alternation(branches) => if branches.len() > 0 {
            reached_indices_seq(branches[0])
        } else {
            Seq::empty()
        },
        Pat::Quantifier(inner, _) => reached_indices_pat(*inner),
        Pat::ExactRepetition(inner, _) => reached_indices_pat(*inner),
        Pat::RangeRepetition(inner, _, _) => reached_indices_pat(*inner),
        _ => Seq::empty(),
    }
}

/// The indices of the capturing groups that the numbering reaches in `pats`,
/// in source order.
pub open spec fn reached_indices_seq(pats: Seq<Pat>) -> Seq<nat>
    decreases pats, 1int,
{
    if pats.len() == 0 {
        Seq::empty()
    } else {
        reached_indices_pat(pats[0]) + reached_indices_seq(rest(pats))
    }
}

proof fn lemma_reached_numbered_pat(p: Pat, start: nat)
    ensures
        reached_indices_pat(renumber_pat(p, start)) == counting(start, reached_pat(p)),
    decreases p, 0int,
{
    match p {
        Pat::CaptureGroup(_, inner) => {
            lemma_reached_numbered_seq(inner, start + 1);
            assert(seq![start] + counting(start + 1, reached_seq(inner)) =~= counting(
                start,
                reached_pat(p),
            ));
        },
        Pat::Alternation(branches) => {
            if branches.len() > 0 {
                lemma_reached_numbered_seq(branches[0], start);
            } else {
                assert(reached_indices_pat(p) =~= counting(start, 0));
            }
        },
        Pat::Quantifier(inner, _) => {
            lemma_reached_numbered_pat(*inner, start);
        },
        Pat::ExactRepetition(inner, _) => {
            lemma_reached_numbered_pat(*inner, start);
        },
        Pat::RangeRepetition(inner, _, _) => {
            lemma_reached_numbered_pat(*inner, start);
        },
        _ => {
            assert(reached_indices_pat(p) =~= counting(start, 0));
        },
    }
}

proof fn lemma_reached_numbered_seq(pats: Seq<Pat>, start: nat)
    ensures
        reached_indices_seq(renumber_seq(pats, start)) == counting(start, reached_seq(pats)),
    decreases pats, 1int,
{
    if pats.len() == 0 {
        assert(reached_indices_seq(pats) =~= counting(start, 0));
    } else {
        let head = reached_pat(pats[0]);
        lemma_reached_numbered_pat(pats[0], start);
        lemma_reached_numbered_seq(rest(pats), start + head);
        let done = renumber_seq(pats, start);
        assert(done[0] == renumber_pat(pats[0], start));
        assert(rest(done) =~= renumber_seq(rest(pats), start + head));
        assert(counting(start, head) + counting(start + head, reached_seq(rest(pats))) =~= counting(
            start,
            reached_seq(pats),
        ));
    }
}

/// Numbering law for the groups that the walk reaches. In a numbered
/// pattern they carry, in source order, the indices `start`, `start + 1`,
/// ..., one for each of them, whatever indices stood there before.
pub proof fn law_reached_groups_numbered_in_order(pats: Seq<Pat>, start: nat)
    ensures
        reached_indices_seq(renumber_seq(pats, start)) == counting(start, reached_seq(pats)),
{
    lemma_reached_numbered_seq(pats, start);
}

/// Numbering law. Where no alternation holds a group behind its first
/// branch, the groups of a numbered pattern carry, in source order, the
/// indices `start`, `start + 1`, ..., one for each group of the pattern.
pub proof fn law_groups_numbered_in_order(pats: Seq<Pat>, start: nat)
    requires
        all_reached_seq(pats),
    ensures
        indices_seq(renumber_seq(pats, start)) == counting(start, indices_seq(pats).len()),
        reached_seq(pats) == indices_seq(pats).len(),
{
    lemma_numbered_seq(pats, start);
}

proof fn lemma_digit_run_bound(p: Seq<char>, i: int)
    requires
        0 <= i <= p.len(),
    ensures
        i + digit_run(p, i) <= p.len(),
    decreases p.len() - i,
{
    if i < p.len() {
        lemma_digit_run_bound(p, i + 1);
    }
}

proof fn lemma_atom_groups(p: Seq<char>, i: int)
    requires
        0 <= i < p.len(),
    ensures
        i + 1 + atom_at(p, i).1 <= p.len(),
        atom_at(p, i).0 matches Some(tok) ==> reached_pat(tok) <= 1 + atom_at(p, i).1,
    decreases p.len(), 0nat,
{
    let c = p[i];
    if c == '\\' {
        if i + 1 < p.len() {
            lemma_digit_run_bound(p, i + 1);
        }
    } else if c == '[' {
        let negated = i + 1 < p.len() && p[i + 1] == '^';
        let start = if negated { i + 2 } else { i + 1 };
        lemma_distance_bound(p, start, ']');
    } else if c == '(' {
        let span = group_span(p, i + 1, 1);
        let content = p.subrange(i + 1, i + 1 + span);
        let parts = split_spec(content, '|');
        lemma_group_span_bound(p, i + 1, 1);
        lemma_split_from_lengths(content, 0, 0, Seq::empty(), '|');
        if parts.len() > 1 {
            lemma_pattern_groups_from(parts[0], 0);
            let tok = atom_at(p, i).0->0;
            let inner = tok->CaptureGroup_1;
            assert(inner.len() == 1);
            assert(rest(inner) =~= Seq::<Pat>::empty());
            assert(reached_seq(rest(inner)) == 0);
            assert(reached_seq(inner) == reached_pat(inner[0]));
        } else {
            lemma_pattern_groups_from(content, 0);
        }
    }
}

proof fn lemma_pattern_groups_from(p: Seq<char>, i: int)
    requires
        0 <= i <= p.len(),
    ensures
        reached_seq(tokens_from(p, i)) <= p.len() - i,
    decreases p.len(), p.len() - i + 1,
{
    if i < p.len() {
        lemma_atom_groups(p, i);
        let atom = atom_at(p, i);
        match atom.0 {
            Some(tok) => {
                let whole = suffix_at(p, tok, i + 1 + atom.1);
                let next = i + 1 + atom.1 + whole.1;
                assert(reached_pat(whole.0) <= reached_pat(tok));
                let behind = tokens_from(p, next);
                let all = tokens_from(p, i);
                assert(all =~= seq![whole.0] + behind);
                assert(all[0] == whole.0);
                assert(rest(all) =~= behind);
                assert(reached_seq(all) == reached_pat(whole.0) + reached_seq(behind));
                if next <= p.len() {
                    lemma_pattern_groups_from(p, next);
                } else {
                    assert(behind.len() == 0);
                    assert(reached_seq(behind) == 0);
                }
            },
            None => {
                assert(tokens_from(p, i).len() == 0);
            },
        }
    } else {
        assert(tokens_from(p, i).len() == 0);
    }
}

/// A pattern has no more groups for the numbering to reach than characters.
pub proof fn lemma_pattern_groups_bounded(p: Seq<char>)
    ensures
        reached_seq(tokens_of(p)) <= p.len(),
{
    lemma_pattern_groups_from(p, 0);
}

} // verus!
