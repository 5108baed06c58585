use data_goblin::error::Error;
use data_goblin::lexer::Lexer;
use data_goblin::tok::Tok;

fn lex_test(x: &str) -> Option<Vec<Tok>> {
    let mut lexer = Lexer::new(x.chars().collect());
    let mut result = Vec::new();
    loop {
        match lexer.next() {
            None => return Some(result),
            Some(Ok(t)) => result.push(t),
            Some(Err(_)) => return None,
        }
    }
}

#[test]
fn symbols() {
    assert_eq!(lex_test("("), Some(vec!(Tok::OpenParen)));
    assert_eq!(lex_test(")"), Some(vec!(Tok::CloseParen)));
    assert_eq!(lex_test("?"), Some(vec!(Tok::Query)));
    assert_eq!(lex_test("."), Some(vec!(Tok::Dot)));
    assert_eq!(lex_test(","), Some(vec!(Tok::Comma)));
    assert_eq!(lex_test(":-"), Some(vec!(Tok::Means)));
    assert_eq!(lex_test(" ? , . :-"),
               Some(vec!(Tok::Query, Tok::Comma, Tok::Dot, Tok::Means)));
}

#[test]
fn lexer_empty() {
    assert_eq!(lex_test(""), Some(vec!()));
    assert_eq!(lex_test("    "), Some(vec!()));
    assert_eq!(lex_test(" \n\r\t"), Some(vec!()));
}

#[test]
fn atoms() {
    assert_eq!(lex_test("a"), Some(vec!(Tok::Atom("a".to_string()))));
    assert_eq!(lex_test("a_t_o_m"),
               Some(vec!(Tok::Atom("a_t_o_m".to_string()))));
    assert_eq!(lex_test("aTOM"),
               Some(vec!(Tok::Atom("aTOM".to_string()))));
    assert_eq!(lex_test(" atom1 atom_2 aTOM3"),
               Some(vec!(Tok::Atom("atom1".to_string()),
                         Tok::Atom("atom_2".to_string()),
                         Tok::Atom("aTOM3".to_string()))));
}

#[test]
fn vars() {
    assert_eq!(lex_test("V"), Some(vec!(Tok::Variable("V".to_string()))));
    assert_eq!(lex_test("V_A_R"),
               Some(vec!(Tok::Variable("V_A_R".to_string()))));
    assert_eq!(lex_test("Var"),
               Some(vec!(Tok::Variable("Var".to_string()))));
    assert_eq!(lex_test(" VAR1 VAR_2 Var3"),
               Some(vec!(Tok::Variable("VAR1".to_string()),
                         Tok::Variable("VAR_2".to_string()),
                         Tok::Variable("Var3".to_string()))));
}

#[test]
fn combined() {
     assert_eq!(lex_test("rule(Var, atom) :- first(atom, Var),
                                             second(atom, atom)."),
                Some(vec!(Tok::Atom("rule".to_string()),
                          Tok::OpenParen,
                          Tok::Variable("Var".to_string()),
                          Tok::Comma,
                          Tok::Atom("atom".to_string()),
                          Tok::CloseParen,
                          Tok::Means,
                          Tok::Atom("first".to_string()),
                          Tok::OpenParen,
                          Tok::Atom("atom".to_string()),
                          Tok::Comma,
                          Tok::Variable("Var".to_string()),
                          Tok::CloseParen,
                          Tok::Comma,
                          Tok::Atom("second".to_string()),
                          Tok::OpenParen,
                          Tok::Atom("atom".to_string()),
                          Tok::Comma,
                          Tok::Atom("atom".to_string()),
                          Tok::CloseParen,
                          Tok::Dot)));
}

#[test]
fn lexer_errors() {
    let mut lexer = Lexer::new("a : b".chars().collect());
    assert_eq!(lexer.next().map(|r| r.ok()), Some(Some(Tok::Atom("a".to_string()))));
    match lexer.next() {
        Some(Err(Error::Lexer(m))) => assert_eq!(m, "unexpected character:  "),
        other => panic!("{:?}", other),
    }
    // The character that was not expected is read again.
    assert_eq!(lexer.next().map(|r| r.ok()), Some(Some(Tok::Atom("b".to_string()))));
    assert!(lexer.next().is_none());

    let mut lexer = Lexer::new("#".chars().collect());
    for _ in 0..2 {
        match lexer.next() {
            Some(Err(Error::Lexer(m))) => assert_eq!(m, "unrecognized character: #"),
            other => panic!("{:?}", other),
        }
    }
    // A colon at the end of the text ends the tokens.
    assert_eq!(lex_test("a :"), Some(vec![Tok::Atom("a".to_string())]));
}
