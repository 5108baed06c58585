//! Lexical tokens.

use crate::text::Text;
use vstd::prelude::*;

verus! {

#[derive(Debug, PartialEq, Clone)]
pub enum Tok {
    Atom(String),
    Comma,
    CloseParen,
    /// "."
    Dot,
    /// ":-"
    Means,
    /// "?"
    Query,
    OpenParen,
    Variable(String),
}

pub enum TokSpec {
    Atom(Text),
    Comma,
    CloseParen,
    Dot,
    Means,
    Query,
    OpenParen,
    Variable(Text),
}

impl View for Tok {
    type V = TokSpec;

    open spec fn view(&self) -> TokSpec {
        match self {
            Tok::Atom(a) => TokSpec::Atom(a@),
            Tok::Comma => TokSpec::Comma,
            Tok::CloseParen => TokSpec::CloseParen,
            Tok::Dot => TokSpec::Dot,
            Tok::Means => TokSpec::Means,
            Tok::Query => TokSpec::Query,
            Tok::OpenParen => TokSpec::OpenParen,
            Tok::Variable(v) => TokSpec::Variable(v@),
        }
    }
}

impl DeepView for Tok {
    type V = TokSpec;

    open spec fn deep_view(&self) -> TokSpec {
        self@
    }
}

impl Tok {
    /// A copy of the token.
    pub fn duplicate(&self) -> (r: Tok)
        ensures
            r@ == self@,
    {
        match self {
            Tok::Atom(a) => Tok::Atom(a.clone()),
            Tok::Comma => Tok::Comma,
            Tok::CloseParen => Tok::CloseParen,
            Tok::Dot => Tok::Dot,
            Tok::Means => Tok::Means,
            Tok::Query => Tok::Query,
            Tok::OpenParen => Tok::OpenParen,
            Tok::Variable(v) => Tok::Variable(v.clone()),
        }
    }
}

} // verus!
