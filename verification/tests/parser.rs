use data_goblin::ast::{AtomicTerm, CompoundTerm, Line, Rule, Term};
use data_goblin::error::Error;
use data_goblin::parser::Parser;
use data_goblin::tok::Tok;

fn parse_test(x: Vec<Tok>) -> Option<Vec<Line>> {
    let mut parser = Parser::new(x);
    let mut result = Vec::new();
    loop {
        match parser.next() {
            None => return Some(result),
            Some(Ok(line)) => result.push(line),
            Some(Err(_)) => return None,
        }
    }
}

fn parse_error(x: Vec<Tok>) -> String {
    let mut parser = Parser::new(x);
    loop {
        match parser.next() {
            None => panic!("no error"),
            Some(Ok(_)) => {}
            Some(Err(Error::Parser(m))) => return m,
            Some(Err(other)) => panic!("{:?}", other),
        }
    }
}

#[test]
fn parser_empty() {
    assert_eq!(parse_test(vec!()), Some(vec!()));
}

// Test some malformed lines (without ending punctuation, compound
// terms inside of compound terms, etc)
#[test]
fn incomplete() {

}

#[test]
fn nested_predicate() {

}

#[test]
fn simplest_lines() {
    // We are not quite sure what these statements should do yet but they are
    // syntactically valid

    // > abraham.
    assert_eq!(parse_test(
            vec!(Tok::Atom("abraham".to_string()),
                 Tok::Dot)),
            Some(vec!(
                Line::Rule( Rule {
                    head: Term::Atomic(AtomicTerm::Atom("abraham".to_string())),
                    body: vec!()
                } )))
            );

    // > A.
    assert_eq!(parse_test(
            vec!(Tok::Variable("A".to_string()),
                 Tok::Dot)),
            Some(vec!(
                Line::Rule( Rule {
                    head: Term::Atomic(AtomicTerm::Variable("A".to_string())),
                    body: vec!()
                } )))
            );


    // > abraham?
    assert_eq!(parse_test(
            vec!(Tok::Atom("abraham".to_string()),
                 Tok::Query)),
            Some(vec!(
                    Line::Query(
                        Term::Atomic(AtomicTerm::Atom("abraham".to_string())))))
            );

    // > A?
    assert_eq!(parse_test(
            vec!(Tok::Variable("A".to_string()),
                 Tok::Query)),
            Some(vec!(
                    Line::Query(
                        Term::Atomic(AtomicTerm::Variable("A".to_string())))))
            );


}

#[test]
fn simple_facts() {

    let head = Term::Compound(
        CompoundTerm { relation: "parent".to_string(),
                      params: vec!(
                        AtomicTerm::Atom("abraham".to_string()),
                        AtomicTerm::Atom("isaac".to_string())
                        ) });
    assert_eq!(parse_test(
            vec!(Tok::Atom("parent".to_string()),
                 Tok::OpenParen,
                 Tok::Atom("abraham".to_string()),
                 Tok::Comma,
                 Tok::Atom("isaac".to_string()),
                 Tok::CloseParen,
                 Tok::Dot)
            ),
            Some(vec!(
                    Line::Rule(
                        Rule {
                            head: head,
                            body: vec!()
                        })
                    )));

}

#[test]
fn simple_rules() {

}

#[test]
fn rule_with_a_body() {
    let a = |s: &str| Tok::Atom(s.to_string());
    let v = |s: &str| Tok::Variable(s.to_string());
    // father(X, Y) :- parent(X, Y), male(X). parent(X, isaac)?
    let tokens = vec![
        a("father"), Tok::OpenParen, v("X"), Tok::Comma, v("Y"), Tok::CloseParen, Tok::Means,
        a("parent"), Tok::OpenParen, v("X"), Tok::Comma, v("Y"), Tok::CloseParen, Tok::Comma,
        a("male"), Tok::OpenParen, v("X"), Tok::CloseParen, Tok::Dot,
        a("parent"), Tok::OpenParen, v("X"), Tok::Comma, a("isaac"), Tok::CloseParen, Tok::Query,
    ];
    let term = |name: &str, params: Vec<AtomicTerm>| {
        Term::Compound(CompoundTerm { relation: name.to_string(), params })
    };
    let x = || AtomicTerm::Variable("X".to_string());
    let y = || AtomicTerm::Variable("Y".to_string());
    assert_eq!(
        parse_test(tokens),
        Some(vec![
            Line::Rule(Rule {
                head: term("father", vec![x(), y()]),
                body: vec![term("parent", vec![x(), y()]), term("male", vec![x()])],
            }),
            Line::Query(term("parent", vec![x(), AtomicTerm::Atom("isaac".to_string())])),
        ])
    );
}

#[test]
fn parser_errors() {
    let a = |s: &str| Tok::Atom(s.to_string());
    assert_eq!(
        parse_error(vec![Tok::Dot]),
        "Unexpected token at the start of a term: Dot"
    );
    assert_eq!(
        parse_error(vec![a("p"), a("q")]),
        "Unexpected token after an atom: Atom(\"q\")"
    );
    assert_eq!(
        parse_error(vec![a("p"), Tok::Comma]),
        "Unexpected token following a term. Token: Some(Comma)"
    );
    assert_eq!(
        parse_error(vec![
            a("p"), Tok::OpenParen, a("q"), Tok::OpenParen, a("r"), Tok::CloseParen,
            Tok::CloseParen, Tok::Dot,
        ]),
        "Syntax Error: nested compound term."
    );
    // Tokens that end inside a line end the lines.
    assert_eq!(parse_test(vec![a("p")]), Some(vec![]));
    assert_eq!(parse_test(vec![a("p"), Tok::OpenParen, a("q")]), Some(vec![]));
}

#[test]
fn terms_compare_by_value() {
    let a = Term::Atomic(AtomicTerm::Atom("a".to_string()));
    assert_eq!(a.duplicate(), a);
    assert_ne!(a, Term::Atomic(AtomicTerm::Variable("a".to_string())));
}
