//! Converting tokens into lines.
//!
//! The parser reads greedily: a term ends with the token behind it, which
//! the parser keeps as its current token, and the current token decides
//! what follows. Where the tokens end inside a line, the lines end with
//! them, without an error.

use crate::ast::{
    AtomicTerm, AtomicTermSpec, CompoundTerm, CompoundTermSpec, Line, LineSpec, Rule, RuleSpec,
    Term, TermSpec,
};
use crate::error::{Error, ErrorSpec};
use crate::text::{debug_text, text_debug, Text};
use crate::tok::{Tok, TokSpec};
use vstd::prelude::*;

verus! {

/// A token as error messages show it.
pub open spec fn tok_debug(t: TokSpec) -> Seq<char> {
    match t {
        TokSpec::Atom(a) => "Atom("@ + text_debug(a) + ")"@,
        TokSpec::Comma => "Comma"@,
        TokSpec::CloseParen => "CloseParen"@,
        TokSpec::Dot => "Dot"@,
        TokSpec::Means => "Means"@,
        TokSpec::Query => "Query"@,
        TokSpec::OpenParen => "OpenParen"@,
        TokSpec::Variable(v) => "Variable("@ + text_debug(v) + ")"@,
    }
}

/// Shows a token as error messages show it.
fn debug_tok(t: &Tok) -> (r: String)
    ensures
        r@ == tok_debug(t@),
{
    match t {
        Tok::Atom(a) => String::from_str("Atom(").concat(debug_text(a).as_str()).concat(")"),
        Tok::Comma => String::from_str("Comma"),
        Tok::CloseParen => String::from_str("CloseParen"),
        Tok::Dot => String::from_str("Dot"),
        Tok::Means => String::from_str("Means"),
        Tok::Query => String::from_str("Query"),
        Tok::OpenParen => String::from_str("OpenParen"),
        Tok::Variable(v) => String::from_str("Variable(").concat(debug_text(v).as_str()).concat(
            ")",
        ),
    }
}

/// Where the parser stands: how many tokens it has read, and the token
/// that it read last, unless the tokens had ended.
pub struct ParserState {
    pub pos: int,
    pub current: Option<TokSpec>,
}

/// What a step of the parser gives: a value, an error or the end of the
/// lines, and where the parser stands then.
pub struct Parsed<T> {
    pub value: Option<Result<T, ErrorSpec>>,
    pub state: ParserState,
}

/// Reading one token.
pub open spec fn advance(ts: Seq<TokSpec>, st: ParserState) -> ParserState {
    if 0 <= st.pos < ts.len() {
        ParserState { pos: st.pos + 1, current: Some(ts[st.pos]) }
    } else {
        ParserState { pos: st.pos, current: None }
    }
}

pub open spec fn error_at_start(t: TokSpec) -> ErrorSpec {
    ErrorSpec::Parser("Unexpected token at the start of a term: "@ + tok_debug(t))
}

pub open spec fn error_after_atom(t: TokSpec) -> ErrorSpec {
    ErrorSpec::Parser("Unexpected token after an atom: "@ + tok_debug(t))
}

pub open spec fn error_after_term(t: TokSpec) -> ErrorSpec {
    ErrorSpec::Parser("Unexpected token following a term. Token: Some("@ + tok_debug(t) + ")"@)
}

pub open spec fn error_nested() -> ErrorSpec {
    ErrorSpec::Parser("Syntax Error: nested compound term."@)
}

pub open spec fn error_no_token() -> ErrorSpec {
    ErrorSpec::Parser("Term found with no token following it"@)
}

/// The largest term that starts with the next token, and the token behind
/// it as the current one.
pub open spec fn parse_term_spec(ts: Seq<TokSpec>, st: ParserState) -> Parsed<TermSpec>
    decreases ts.len() - st.pos, 1int,
{
    let st1 = advance(ts, st);
    match st1.current {
        None => Parsed { value: None, state: st1 },
        Some(TokSpec::Atom(a)) => term_from_atom_spec(ts, st1, a),
        Some(TokSpec::Variable(v)) => {
            let st2 = advance(ts, st1);
            match st2.current {
                None => Parsed { value: None, state: st2 },
                Some(_) => Parsed {
                    value: Some(Ok(TermSpec::Atomic(AtomicTermSpec::Variable(v)))),
                    state: st2,
                },
            }
        },
        Some(other) => Parsed { value: Some(Err(error_at_start(other))), state: st1 },
    }
}

/// The term that begins with the given atom: a compound term if an
/// opening parenthesis follows, the atom alone if a token follows that can
/// end a term.
pub open spec fn term_from_atom_spec(ts: Seq<TokSpec>, st: ParserState, atom: Text) -> Parsed<
    TermSpec,
>
    decreases ts.len() - st.pos, 5int,
{
    let st1 = advance(ts, st);
    match st1.current {
        None => Parsed { value: None, state: st1 },
        Some(TokSpec::OpenParen) => {
            let p = parse_atomic_term_list_spec(ts, st1);
            match p.value {
                None => Parsed { value: None, state: p.state },
                Some(Err(e)) => Parsed { value: Some(Err(e)), state: p.state },
                Some(Ok(params)) => {
                    let st2 = advance(ts, p.state);
                    match st2.current {
                        None => Parsed { value: None, state: st2 },
                        Some(_) => Parsed {
                            value: Some(
                                Ok(TermSpec::Compound(CompoundTermSpec { relation: atom, params })),
                            ),
                            state: st2,
                        },
                    }
                },
            }
        },
        Some(TokSpec::Query) | Some(TokSpec::Dot) | Some(TokSpec::Comma) | Some(
            TokSpec::CloseParen,
        ) => Parsed { value: Some(Ok(TermSpec::Atomic(AtomicTermSpec::Atom(atom)))), state: st1 },
        Some(other) => Parsed { value: Some(Err(error_after_atom(other))), state: st1 },
    }
}

/// The terms that follow while the current token is a comma, behind the
/// terms that were read already.
pub open spec fn more_terms_spec(ts: Seq<TokSpec>, st: ParserState, terms: Seq<TermSpec>) -> Parsed<
    Seq<TermSpec>,
>
    decreases ts.len() - st.pos, 2int,
{
    if st.current == Some(TokSpec::Comma) {
        let p = parse_term_spec(ts, st);
        match p.value {
            None => Parsed { value: None, state: p.state },
            Some(Err(e)) => Parsed { value: Some(Err(e)), state: p.state },
            Some(Ok(t)) => if st.pos < p.state.pos <= ts.len() {
                more_terms_spec(ts, p.state, terms.push(t))
            } else {
                Parsed { value: Some(Ok(terms.push(t))), state: p.state }
            },
        }
    } else {
        Parsed { value: Some(Ok(terms)), state: st }
    }
}

/// A list of at least one term, with commas between the terms.
pub open spec fn parse_term_list_spec(ts: Seq<TokSpec>, st: ParserState) -> Parsed<Seq<TermSpec>>
    decreases ts.len() - st.pos, 3int,
{
    let p = parse_term_spec(ts, st);
    match p.value {
        None => Parsed { value: None, state: p.state },
        Some(Err(e)) => Parsed { value: Some(Err(e)), state: p.state },
        Some(Ok(t)) => if st.pos < p.state.pos <= ts.len() {
            more_terms_spec(ts, p.state, seq![t])
        } else {
            Parsed { value: Some(Ok(seq![t])), state: p.state }
        },
    }
}

/// Whether some term of the list is compound.
pub open spec fn has_compound(terms: Seq<TermSpec>) -> bool {
    exists|i: int| 0 <= i < terms.len() && terms[i] is Compound
}

/// The atomic terms of a list of atomic terms.
pub open spec fn atomics(terms: Seq<TermSpec>) -> Seq<AtomicTermSpec> {
    Seq::new(terms.len(), |i: int| terms[i]->Atomic_0)
}

/// A list of at least one atomic term: the parameters of a compound term.
pub open spec fn parse_atomic_term_list_spec(ts: Seq<TokSpec>, st: ParserState) -> Parsed<
    Seq<AtomicTermSpec>,
>
    decreases ts.len() - st.pos, 4int,
{
    let p = parse_term_list_spec(ts, st);
    match p.value {
        None => Parsed { value: None, state: p.state },
        Some(Err(e)) => Parsed { value: Some(Err(e)), state: p.state },
        Some(Ok(list)) => if has_compound(list) {
            Parsed { value: Some(Err(error_nested())), state: p.state }
        } else {
            Parsed { value: Some(Ok(atomics(list))), state: p.state }
        },
    }
}

/// The next line: a term, and what the token behind it asks for. A dot
/// makes the term a fact, a question mark a query, and `:-` the head of a
/// rule whose body follows.
pub open spec fn parse_line_spec(ts: Seq<TokSpec>, st: ParserState) -> Parsed<LineSpec> {
    let p = parse_term_spec(ts, st);
    match p.value {
        None => Parsed { value: None, state: p.state },
        Some(Err(e)) => Parsed { value: Some(Err(e)), state: p.state },
        Some(Ok(first)) => match p.state.current {
            Some(TokSpec::Dot) => Parsed {
                value: Some(Ok(LineSpec::Rule(RuleSpec { head: first, body: Seq::empty() }))),
                state: p.state,
            },
            Some(TokSpec::Query) => Parsed { value: Some(Ok(LineSpec::Query(first))), state: p.state },
            Some(TokSpec::Means) => {
                let q = parse_term_list_spec(ts, p.state);
                match q.value {
                    None => Parsed { value: None, state: q.state },
                    Some(Err(e)) => Parsed { value: Some(Err(e)), state: q.state },
                    Some(Ok(body)) => Parsed {
                        value: Some(Ok(LineSpec::Rule(RuleSpec { head: first, body }))),
                        state: q.state,
                    },
                }
            },
            Some(other) => Parsed { value: Some(Err(error_after_term(other))), state: p.state },
            None => Parsed { value: Some(Err(error_no_token())), state: p.state },
        },
    }
}

/// The atomic terms of a list of terms, unless one of them is compound.
fn all_atomic(list: &Vec<Term>) -> (r: Option<Vec<AtomicTerm>>)
    ensures
        match r {
            Some(atomic_terms) => !has_compound(list.deep_view()) && atomic_terms.deep_view()
                == atomics(list.deep_view()),
            None => has_compound(list.deep_view()),
        },
{
    let ghost terms = list.deep_view();
    let mut atomic_terms: Vec<AtomicTerm> = Vec::new();
    let mut i: usize = 0;
    while i < list.len()
        invariant
            i <= list.len(),
            terms == list.deep_view(),
            atomic_terms.len() == i,
            forall|k: int| 0 <= k < i ==> terms[k] is Atomic,
            forall|k: int| 0 <= k < i ==> atomic_terms[k]@ == terms[k]->Atomic_0,
        decreases list.len() - i,
    {
        assert(terms[i as int] == list[i as int]@);
        match &list[i] {
            Term::Atomic(at) => {
                atomic_terms.push(at.duplicate());
            },
            Term::Compound(_) => {
                assert(terms[i as int] is Compound);
                return None;
            },
        }
        i += 1;
    }
    assert(atomic_terms.deep_view() =~= atomics(terms));
    Some(atomic_terms)
}

/// Turns tokens into lines, one at a time.
#[derive(Debug)]
pub struct Parser {
    tokens: Vec<Tok>,
    position: usize,
    current: Option<Tok>,
}

/// What a step handed out, as contracts see it.
pub open spec fn step_view<T: View>(r: Option<Result<T, Error>>) -> Option<Result<T::V, ErrorSpec>> {
    match r {
        None => None,
        Some(Ok(t)) => Some(Ok(t@)),
        Some(Err(e)) => Some(Err(e@)),
    }
}

/// What a step handed out of a list, as contracts see it.
pub open spec fn list_view<T: DeepView>(r: Option<Result<Vec<T>, Error>>) -> Option<
    Result<Seq<T::V>, ErrorSpec>,
> {
    match r {
        None => None,
        Some(Ok(list)) => Some(Ok(list.deep_view())),
        Some(Err(e)) => Some(Err(e@)),
    }
}

impl Parser {
    /// All the tokens.
    pub closed spec fn source(&self) -> Seq<TokSpec> {
        self.tokens.deep_view()
    }

    /// Where the parser stands.
    pub closed spec fn state(&self) -> ParserState {
        ParserState {
            pos: self.position as int,
            current: match self.current {
                Some(t) => Some(t@),
                None => None,
            },
        }
    }

    /// The parser has not read past the end of its tokens.
    pub closed spec fn wf(&self) -> bool {
        self.position <= self.tokens.len()
    }

    /// A parser at the start of the given tokens.
    pub fn new(tokens: Vec<Tok>) -> (r: Parser)
        ensures
            r.wf(),
            r.source() == tokens.deep_view(),
            r.state() == (ParserState { pos: 0, current: None }),
    {
        Parser { tokens, position: 0, current: None }
    }

    /// Reads one token and makes it the current one.
    fn next_token(&mut self) -> (r: Option<Tok>)
        requires
            old(self).wf(),
        ensures
            final(self).wf(),
            final(self).source() == old(self).source(),
            final(self).state() == advance(old(self).source(), old(self).state()),
            match r {
                Some(t) => final(self).state().current == Some(t@),
                None => final(self).state().current.is_none(),
            },
    {
        if self.position < self.tokens.len() {
            let c = self.tokens[self.position].duplicate();
            assert(self.source()[self.position as int] == c@);
            self.current = Some(c.duplicate());
            self.position = self.position + 1;
            Some(c)
        } else {
            self.current = None;
            None
        }
    }

    /// Parses a term beginning with the given atom. If the next token is an
    /// open paren, parses the compound term. Otherwise, returns an atomic
    /// term from that atom.
    fn term_from_atom(&mut self, atom: String) -> (r: Option<Result<Term, Error>>)
        requires
            old(self).wf(),
        ensures
            final(self).wf(),
            final(self).source() == old(self).source(),
            step_view(r) == term_from_atom_spec(old(self).source(), old(self).state(), atom@).value,
            final(self).state() == term_from_atom_spec(
                old(self).source(),
                old(self).state(),
                atom@,
            ).state,
            r is Some && r->Some_0 is Ok ==> final(self).state().current is Some
                && final(self).state().pos > old(self).state().pos,
        decreases old(self).tokens.len() - old(self).position, 5int,
    {
        let next_token = match self.next_token() {
            Some(t) => t,
            None => {
                return None;
            },
        };
        match next_token {
            Tok::OpenParen => {
                let params = match self.parse_atomic_term_list() {
                    None => {
                        return None;
                    },
                    Some(Err(e)) => {
                        return Some(Err(e));
                    },
                    Some(Ok(params)) => params,
                };
                // Advance past the final closing paren
                match self.next_token() {
                    Some(_) => {},
                    None => {
                        return None;
                    },
                }
                Some(Ok(Term::Compound(CompoundTerm { relation: atom, params })))
            },
            Tok::Query | Tok::Dot | Tok::Comma | Tok::CloseParen => Some(
                Ok(Term::Atomic(AtomicTerm::Atom(atom))),
            ),
            other => Some(
                Err(
                    Error::Parser(
                        String::from_str("Unexpected token after an atom: ").concat(
                            debug_tok(&other).as_str(),
                        ),
                    ),
                ),
            ),
        }
    }

    /// Greedily parses a term (takes the largest term that can be parsed).
    fn parse_term(&mut self) -> (r: Option<Result<Term, Error>>)
        requires
            old(self).wf(),
        ensures
            final(self).wf(),
            final(self).source() == old(self).source(),
            step_view(r) == parse_term_spec(old(self).source(), old(self).state()).value,
            final(self).state() == parse_term_spec(old(self).source(), old(self).state()).state,
            r is Some && r->Some_0 is Ok ==> final(self).state().current is Some
                && final(self).state().pos > old(self).state().pos,
        decreases old(self).tokens.len() - old(self).position, 1int,
    {
        let tok = match self.next_token() {
            Some(t) => t,
            None => {
                return None;
            },
        };
        match tok {
            Tok::Atom(atom) => self.term_from_atom(atom),
            Tok::Variable(var) => {
                // The token behind the term is read here too.
                match self.next_token() {
                    Some(_) => {},
                    None => {
                        return None;
                    },
                }
                Some(Ok(Term::Atomic(AtomicTerm::Variable(var))))
            },
            other => Some(
                Err(
                    Error::Parser(
                        String::from_str("Unexpected token at the start of a term: ").concat(
                            debug_tok(&other).as_str(),
                        ),
                    ),
                ),
            ),
        }
    }

    /// Whether the current token is a comma.
    fn at_comma(&self) -> (r: bool)
        ensures
            r == (self.state().current == Some(TokSpec::Comma)),
    {
        match &self.current {
            Some(Tok::Comma) => true,
            _ => false,
        }
    }

    /// Parses the terms that follow while the current token is a comma.
    fn more_terms(&mut self, terms: Vec<Term>) -> (r: Option<Result<Vec<Term>, Error>>)
        requires
            old(self).wf(),
        ensures
            final(self).wf(),
            final(self).source() == old(self).source(),
            list_view(r) == more_terms_spec(
                old(self).source(),
                old(self).state(),
                terms.deep_view(),
            ).value,
            final(self).state() == more_terms_spec(
                old(self).source(),
                old(self).state(),
                terms.deep_view(),
            ).state,
            r is Some && r->Some_0 is Ok ==> final(self).state().pos >= old(self).state().pos && (
            old(self).state().current is Some ==> final(self).state().current is Some),
        decreases old(self).tokens.len() - old(self).position, 2int,
    {
        let mut terms = terms;
        if self.at_comma() {
            match self.parse_term() {
                None => None,
                Some(Err(e)) => Some(Err(e)),
                Some(Ok(t)) => {
                    let ghost before = terms.deep_view();
                    terms.push(t);
                    assert(terms.deep_view() =~= before.push(t@));
                    self.more_terms(terms)
                },
            }
        } else {
            Some(Ok(terms))
        }
    }

    /// Parses the body of a rule: a list of terms forming a conjunction, of
    /// at least one term.
    fn parse_term_list(&mut self) -> (r: Option<Result<Vec<Term>, Error>>)
        requires
            old(self).wf(),
        ensures
            final(self).wf(),
            final(self).source() == old(self).source(),
            list_view(r) == parse_term_list_spec(old(self).source(), old(self).state()).value,
            final(self).state()
                == parse_term_list_spec(old(self).source(), old(self).state()).state,
            r is Some && r->Some_0 is Ok ==> final(self).state().current is Some
                && final(self).state().pos > old(self).state().pos,
        decreases old(self).tokens.len() - old(self).position, 3int,
    {
        match self.parse_term() {
            None => None,
            Some(Err(e)) => Some(Err(e)),
            Some(Ok(t)) => {
                let mut terms: Vec<Term> = Vec::new();
                terms.push(t);
                assert(terms.deep_view() =~= seq![t@]);
                self.more_terms(terms)
            },
        }
    }

    /// Parses the parameters of a compound term: a list of terms of which
    /// none is compound.
    fn parse_atomic_term_list(&mut self) -> (r: Option<Result<Vec<AtomicTerm>, Error>>)
        requires
            old(self).wf(),
        ensures
            final(self).wf(),
            final(self).source() == old(self).source(),
            list_view(r)
                == parse_atomic_term_list_spec(old(self).source(), old(self).state()).value,
            final(self).state() == parse_atomic_term_list_spec(
                old(self).source(),
                old(self).state(),
            ).state,
            r is Some && r->Some_0 is Ok ==> final(self).state().current is Some
                && final(self).state().pos > old(self).state().pos,
        decreases old(self).tokens.len() - old(self).position, 4int,
    {
        let list = match self.parse_term_list() {
            None => {
                return None;
            },
            Some(Err(e)) => {
                return Some(Err(e));
            },
            Some(Ok(list)) => list,
        };
        match all_atomic(&list) {
            Some(atomic_terms) => Some(Ok(atomic_terms)),
            None => Some(Err(Error::Parser(String::from_str("Syntax Error: nested compound term.")))),
        }
    }

    /// The next line, an error for tokens that make no line, or `None`
    /// where the tokens end.
    pub fn next(&mut self) -> (r: Option<Result<Line, Error>>)
        requires
            old(self).wf(),
        ensures
            final(self).wf(),
            final(self).source() == old(self).source(),
            step_view(r) == parse_line_spec(old(self).source(), old(self).state()).value,
            final(self).state() == parse_line_spec(old(self).source(), old(self).state()).state,
    {
        // First, parse a term. Then, the current token tells what kind of
        // line this is.
        let first_term = match self.parse_term() {
            None => {
                return None;
            },
            Some(Err(e)) => {
                return Some(Err(e));
            },
            Some(Ok(t)) => t,
        };
        let mark = match &self.current {
            Some(t) => t.duplicate(),
            None => {
                return Some(
                    Err(Error::Parser(String::from_str("Term found with no token following it"))),
                );
            },
        };
        match mark {
            Tok::Dot => {
                let body: Vec<Term> = Vec::new();
                assert(body.deep_view() =~= Seq::<TermSpec>::empty());
                Some(Ok(Line::Rule(Rule { head: first_term, body })))
            },
            Tok::Query => Some(Ok(Line::Query(first_term))),
            Tok::Means => {
                match self.parse_term_list() {
                    None => None,
                    Some(Err(e)) => Some(Err(e)),
                    Some(Ok(term_list)) => Some(
                        Ok(Line::Rule(Rule { head: first_term, body: term_list })),
                    ),
                }
            },
            other => Some(
                Err(
                    Error::Parser(
                        String::from_str("Unexpected token following a term. Token: Some(").concat(
                            debug_tok(&other).as_str(),
                        ).concat(")"),
                    ),
                ),
            ),
        }
    }
}

} // verus!
