//! The token tree a pattern compiles to, and its mathematical model.

use vstd::prelude::*;

verus! {

/// The repetition operators `+`, `?` and `*`.
#[derive(Debug, Clone, Copy, PartialEq, Eq, Structural)]
pub enum Quantifiers {
    OneOrMore,
    ZeroOrOne,
    ZeroOrMore,
}

/// One node of a compiled pattern.
#[derive(Debug)]
pub enum Token {
    Digit,
    Word,
    Literal(char),
    CharGroup(Vec<char>),
    NegCharGroup(Vec<char>),
    StartAnchor,
    EndAnchor,
    Quantifier(Box<Token>, Quantifiers),
    WildCard,
    Alternation(Vec<Vec<Token>>),
    CaptureGroup(usize, Vec<Token>),
    BackReference(usize),
    ExactRepetition(Box<Token>, usize),
    RangeRepetition(Box<Token>, usize, Option<usize>),
}

/// The mathematical model of a [`Token`]: the same tree over `Seq` and `nat`.
pub enum Pat {
    Digit,
    Word,
    Literal(char),
    CharGroup(Seq<char>),
    NegCharGroup(Seq<char>),
    StartAnchor,
    EndAnchor,
    Quantifier(Box<Pat>, Quantifiers),
    WildCard,
    Alternation(Seq<Seq<Pat>>),
    CaptureGroup(nat, Seq<Pat>),
    BackReference(nat),
    ExactRepetition(Box<Pat>, nat),
    RangeRepetition(Box<Pat>, nat, Option<nat>),
}

/// The model of a token sequence, element by element.
pub open spec fn model_seq(tokens: Seq<Token>) -> Seq<Pat>
    decreases tokens, 1int,
{
    Seq::new(
        tokens.len(),
        |i: int|
            if 0 <= i < tokens.len() {
                model(tokens[i])
            } else {
                arbitrary()
            },
    )
}

/// The model of the branches of an alternation, branch by branch.
pub open spec fn model_branches(branches: Seq<Vec<Token>>) -> Seq<Seq<Pat>>
    decreases branches, 1int,
{
    Seq::new(
        branches.len(),
        |i: int|
            if 0 <= i < branches.len() {
                model_seq(branches[i]@)
            } else {
                arbitrary()
            },
    )
}

/// The model of one token.
pub open spec fn model(token: Token) -> Pat
    decreases token, 0int,
{
    match token {
        Token::Digit => Pat::Digit,
        Token::Word => Pat::Word,
        Token::Literal(c) => Pat::Literal(c),
        Token::CharGroup(set) => Pat::CharGroup(set@),
        Token::NegCharGroup(set) => Pat::NegCharGroup(set@),
        Token::StartAnchor => Pat::StartAnchor,
        Token::EndAnchor => Pat::EndAnchor,
        Token::Quantifier(inner, q) => Pat::Quantifier(Box::new(model(*inner)), q),
        Token::WildCard => Pat::WildCard,
        Token::Alternation(branches) => Pat::Alternation(model_branches(branches@)),
        Token::CaptureGroup(n, inner) => Pat::CaptureGroup(n as nat, model_seq(inner@)),
        Token::BackReference(n) => Pat::BackReference(n as nat),
        Token::ExactRepetition(inner, n) => Pat::ExactRepetition(
            Box::new(model(*inner)),
            n as nat,
        ),
        Token::RangeRepetition(inner, min, max) => Pat::RangeRepetition(
            Box::new(model(*inner)),
            min as nat,
            match max {
                Some(m) => Some(m as nat),
                None => None,
            },
        ),
    }
}

impl View for Token {
    type V = Pat;

    open spec fn view(&self) -> Pat {
        model(*self)
    }
}

/// A copy of a token sequence with the same model.
pub fn clone_tokens(tokens: &[Token]) -> (copy: Vec<Token>)
    ensures
        copy.len() == tokens.len(),
        model_seq(copy@) == model_seq(tokens@),
    decreases tokens@, 1int,
{
    let mut copy: Vec<Token> = Vec::new();
    let mut i: usize = 0;
    while i < tokens.len()
        invariant
            i <= tokens.len(),
            copy.len() == i,
            forall|j: int| 0 <= j < i ==> model(#[trigger] copy@[j]) == model(tokens@[j]),
        decreases tokens.len() - i,
    {
        copy.push(tokens[i].clone());
        i += 1;
    }
    assert(model_seq(copy@) =~= model_seq(tokens@));
    copy
}

impl Clone for Token {
    fn clone(&self) -> (copy: Token)
        ensures
            model(copy) == model(*self),
        decreases *self, 0int,
    {
        match self {
            Token::Digit => Token::Digit,
            Token::Word => Token::Word,
            Token::Literal(c) => Token::Literal(*c),
            Token::CharGroup(set) => Token::CharGroup(set.clone()),
            Token::NegCharGroup(set) => Token::NegCharGroup(set.clone()),
            Token::StartAnchor => Token::StartAnchor,
            Token::EndAnchor => Token::EndAnchor,
            Token::Quantifier(inner, q) => Token::Quantifier(Box::new((**inner).clone()), *q),
            Token::WildCard => Token::WildCard,
            Token::Alternation(branches) => {
                let mut copy: Vec<Vec<Token>> = Vec::new();
                let mut i: usize = 0;
                while i < branches.len()
                    invariant
                        decreases_to!(*self => *branches),
                        i <= branches.len(),
                        copy.len() == i,
                        forall|j: int|
                            0 <= j < i ==> model_seq(#[trigger] copy@[j]@) == model_seq(
                                branches@[j]@,
                            ),
                    decreases branches.len() - i,
                {
                    let branch = branches[i].as_slice();
                    proof {
                        assert(decreases_to!(*branches => branches[i as int]));
                        assert(decreases_to!(branches[i as int] => branches[i as int]@));
                        assert(branch@ == branches[i as int]@);
                        assert(decreases_to!(*self => branch@));
                    }
                    copy.push(clone_tokens(branch));
                    i += 1;
                }
                assert(model_branches(copy@) =~= model_branches(branches@));
                Token::Alternation(copy)
            },
            Token::CaptureGroup(n, inner) => Token::CaptureGroup(
                *n,
                clone_tokens(inner.as_slice()),
            ),
            Token::BackReference(n) => Token::BackReference(*n),
            Token::ExactRepetition(inner, n) => Token::ExactRepetition(
                Box::new((**inner).clone()),
                *n,
            ),
            Token::RangeRepetition(inner, min, max) => Token::RangeRepetition(
                Box::new((**inner).clone()),
                *min,
                *max,
            ),
        }
    }
}

} // verus!
