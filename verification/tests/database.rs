use data_goblin::ast::Line;
use data_goblin::cache::ViewCache;
use data_goblin::eval;
use data_goblin::lexer::Lexer;
use data_goblin::parser::Parser;
use data_goblin::storage::StorageEngine;

use std::collections::HashSet;

fn lines(text: &str) -> Vec<Line> {
    let mut lexer = Lexer::new(text.chars().collect());
    let mut tokens = Vec::new();
    while let Some(tok) = lexer.next() {
        tokens.push(tok.unwrap());
    }
    let mut parser = Parser::new(tokens);
    let mut result = Vec::new();
    while let Some(line) = parser.next() {
        result.push(line.unwrap());
    }
    result
}

fn database(text: &str) -> StorageEngine {
    let mut engine = StorageEngine::new("test_data".to_string());
    let mut cache = ViewCache::new();
    for line in lines(text) {
        match line {
            Line::Rule(r) => eval::assert_clause(&mut engine, &mut cache, r).unwrap(),
            Line::Query(_) => panic!("parsed assertion as query"),
        }
    }
    engine
}

fn grammar() -> StorageEngine {
    database(
        "subject(he, third). subject(she, third). subject(i, first).
         verb(throws, third). verb(eats, third). verb(throw, first). verb(eat, first).
         object(it). object(him).
         simple_sentence(S, V, O) :- subject(S, P), verb(V, P), object(O).",
    )
}

fn hierarchy() -> StorageEngine {
    database(
        "reports(id_10001, id_NULL). reports(id_10002, id_10001). reports(id_10003, id_10001).
         reports(id_10004, id_10001). reports(id_10005, id_10002). reports(id_10006, id_10004).
         reports(id_10007, id_10004).
         underling(U, O) :- reports(U, O).
         underling(U, O) :- reports(U, M), underling(M, O).",
    )
}

fn answers(engine: &StorageEngine, cache: &mut ViewCache, query: &str, columns: &[&str], between: &str) -> HashSet<String> {
    let mut found = HashSet::new();
    for line in lines(query) {
        if let Line::Query(t) = line {
            let mut plan = eval::query(engine, cache, t).unwrap();
            while let Some(frame) = plan.next(cache) {
                let values: Vec<String> = columns
                    .iter()
                    .map(|c| frame.get(&c.to_string()).unwrap().clone())
                    .collect();
                found.insert(values.join(between));
            }
        } else {
            panic!("parsed query as assertion");
        }
    }
    found
}

#[test]
fn simple_sentences() {
    let engine = grammar();
    let mut cache = ViewCache::new();
    let query = "simple_sentence(SUBJECT, VERB, OBJECT)?";
    let sentences = answers(&engine, &mut cache, query, &["SUBJECT", "VERB", "OBJECT"], " ");

    assert!(sentences.contains("he throws it"));
    assert!(sentences.contains("she eats him"));
    assert!(sentences.contains("i throw it"));

    assert!(!sentences.contains("him throws it"));
    assert!(!sentences.contains("she eat him"));
    assert!(!sentences.contains("i throws it"));
}

#[test]
fn employee_hierarchy() {
    let engine = hierarchy();
    let mut cache = ViewCache::new();
    let query = "reports(EMP, MAN)?";
    let reports = answers(&engine, &mut cache, query, &["EMP", "MAN"], ", ");

    assert!(reports.contains("id_10001, id_NULL"));
    assert!(reports.contains("id_10005, id_10002"));
    assert!(reports.contains("id_10006, id_10004"));

    assert!(!reports.contains("id_NULL, id_10001"));
    assert!(!reports.contains("id_10003, id_10002"));
    assert!(!reports.contains("id_10003, id_10007"));
}

#[test]
fn test_recursive_query() {
    let engine = hierarchy();
    let mut cache = ViewCache::new();
    let query = "underling(UNDER, OVER)?";
    let underlings_bottom_up = answers(&engine, &mut cache, query, &["UNDER", "OVER"], ", ");

    assert!(underlings_bottom_up.contains("id_10001, id_NULL"));
    assert!(underlings_bottom_up.contains("id_10005, id_10002"));
    assert!(underlings_bottom_up.contains("id_10006, id_10004"));

    assert!(!underlings_bottom_up.contains("id_NULL, id_10001"));
    assert!(!underlings_bottom_up.contains("id_10003, id_10002"));
    assert!(!underlings_bottom_up.contains("id_10003, id_10007"));

    // Through others too.
    assert!(underlings_bottom_up.contains("id_10005, id_NULL"));
    assert!(underlings_bottom_up.contains("id_10006, id_10001"));
    assert_eq!(underlings_bottom_up.len(), 7 + 6 + 3);

    // Asked again, the cache answers, and the same.
    let again = answers(&engine, &mut cache, query, &["UNDER", "OVER"], ", ");
    assert!(underlings_bottom_up == again);
}
