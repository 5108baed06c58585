//! The terms of the language: atoms and variables, compound terms, rules and
//! lines. Each type has a view that contracts speak of, in which every string
//! is the sequence of its characters.

use crate::text::Text;
use vstd::prelude::*;

verus! {

/// Either a ground symbol or a variable.
#[derive(Debug, PartialEq, Clone)]
pub enum AtomicTerm {
    Atom(String),
    Variable(String),
}

/// A relation name applied to a list of parameters.
#[derive(Debug, PartialEq, Clone)]
pub struct CompoundTerm {
    pub relation: String,
    pub params: Vec<AtomicTerm>,
}

#[derive(Debug, PartialEq, Clone)]
pub enum Term {
    Atomic(AtomicTerm),
    Compound(CompoundTerm),
}

/// A head and the terms it follows from. A rule without a body is a fact.
#[derive(Debug, PartialEq)]
pub struct Rule {
    pub head: Term,
    pub body: Vec<Term>,
}

#[derive(Debug, PartialEq)]
pub enum Line {
    Query(Term),
    Rule(Rule),
}

pub enum AtomicTermSpec {
    Atom(Text),
    Variable(Text),
}

pub struct CompoundTermSpec {
    pub relation: Text,
    pub params: Seq<AtomicTermSpec>,
}

pub enum TermSpec {
    Atomic(AtomicTermSpec),
    Compound(CompoundTermSpec),
}

pub struct RuleSpec {
    pub head: TermSpec,
    pub body: Seq<TermSpec>,
}

pub enum LineSpec {
    Query(TermSpec),
    Rule(RuleSpec),
}

impl AtomicTermSpec {
    pub open spec fn is_variable(self) -> bool {
        self is Variable
    }

    /// The symbol or the variable's name.
    pub open spec fn text(self) -> Text {
        match self {
            AtomicTermSpec::Atom(a) => a,
            AtomicTermSpec::Variable(v) => v,
        }
    }
}

impl TermSpec {
    /// The relation that the term names: the head of a compound term, the
    /// symbol of an atom. A variable alone names none.
    pub open spec fn relation(self) -> Option<Text> {
        match self {
            TermSpec::Atomic(AtomicTermSpec::Atom(a)) => Some(a),
            TermSpec::Atomic(AtomicTermSpec::Variable(_)) => None,
            TermSpec::Compound(c) => Some(c.relation),
        }
    }

    /// The parameters of a compound term; an atomic term has none.
    pub open spec fn params(self) -> Seq<AtomicTermSpec> {
        match self {
            TermSpec::Atomic(_) => Seq::empty(),
            TermSpec::Compound(c) => c.params,
        }
    }
}

impl View for AtomicTerm {
    type V = AtomicTermSpec;

    open spec fn view(&self) -> AtomicTermSpec {
        match self {
            AtomicTerm::Atom(a) => AtomicTermSpec::Atom(a@),
            AtomicTerm::Variable(v) => AtomicTermSpec::Variable(v@),
        }
    }
}

impl DeepView for AtomicTerm {
    type V = AtomicTermSpec;

    open spec fn deep_view(&self) -> AtomicTermSpec {
        self@
    }
}

impl View for CompoundTerm {
    type V = CompoundTermSpec;

    open spec fn view(&self) -> CompoundTermSpec {
        CompoundTermSpec { relation: self.relation@, params: self.params.deep_view() }
    }
}

impl View for Term {
    type V = TermSpec;

    open spec fn view(&self) -> TermSpec {
        match self {
            Term::Atomic(a) => TermSpec::Atomic(a@),
            Term::Compound(c) => TermSpec::Compound(c@),
        }
    }
}

impl DeepView for Term {
    type V = TermSpec;

    open spec fn deep_view(&self) -> TermSpec {
        self@
    }
}

impl View for Rule {
    type V = RuleSpec;

    open spec fn view(&self) -> RuleSpec {
        RuleSpec { head: self.head@, body: self.body.deep_view() }
    }
}

impl View for Line {
    type V = LineSpec;

    open spec fn view(&self) -> LineSpec {
        match self {
            Line::Query(t) => LineSpec::Query(t@),
            Line::Rule(r) => LineSpec::Rule(r@),
        }
    }
}

impl AtomicTerm {
    /// A copy of the term.
    pub fn duplicate(&self) -> (r: AtomicTerm)
        ensures
            r@ == self@,
    {
        match self {
            AtomicTerm::Atom(a) => AtomicTerm::Atom(a.clone()),
            AtomicTerm::Variable(v) => AtomicTerm::Variable(v.clone()),
        }
    }
}

/// A copy of a list of parameters.
pub fn duplicate_params(params: &Vec<AtomicTerm>) -> (r: Vec<AtomicTerm>)
    ensures
        r.deep_view() == params.deep_view(),
{
    let mut r: Vec<AtomicTerm> = Vec::new();
    let mut i: usize = 0;
    while i < params.len()
        invariant
            i <= params.len(),
            r.len() == i,
            forall|k: int| 0 <= k < i ==> r[k]@ == params[k]@,
        decreases params.len() - i,
    {
        r.push(params[i].duplicate());
        i += 1;
    }
    assert(r.deep_view() =~= params.deep_view());
    r
}

impl Term {
    /// A copy of the term.
    pub fn duplicate(&self) -> (r: Term)
        ensures
            r@ == self@,
    {
        match self {
            Term::Atomic(a) => Term::Atomic(a.duplicate()),
            Term::Compound(c) => Term::Compound(
                CompoundTerm { relation: c.relation.clone(), params: duplicate_params(&c.params) },
            ),
        }
    }
}

/// A copy of a list of terms.
pub fn duplicate_terms(terms: &Vec<Term>) -> (r: Vec<Term>)
    ensures
        r.deep_view() == terms.deep_view(),
{
    let mut r: Vec<Term> = Vec::new();
    let mut i: usize = 0;
    while i < terms.len()
        invariant
            i <= terms.len(),
            r.len() == i,
            forall|k: int| 0 <= k < i ==> r[k]@ == terms[k]@,
        decreases terms.len() - i,
    {
        r.push(terms[i].duplicate());
        i += 1;
    }
    assert(r.deep_view() =~= terms.deep_view());
    r
}

} // verus!
