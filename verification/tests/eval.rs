use data_goblin::ast::{AtomicTerm, CompoundTerm, Rule, Term};
use data_goblin::cache::ViewCache;
use data_goblin::error::Error;
use data_goblin::eval::query;
use data_goblin::frame::{merge_frames, Frame, Pattern};
use data_goblin::plan::{FramePlan, Plan};
use data_goblin::storage::{Relation, StorageEngine};
use data_goblin::update::{add_rule_to_view, assert_clause, initialize_view_cache, simple_assert};

fn atom(s: &str) -> AtomicTerm {
    AtomicTerm::Atom(s.to_string())
}

fn var(s: &str) -> AtomicTerm {
    AtomicTerm::Variable(s.to_string())
}

fn term(relation: &str, params: Vec<AtomicTerm>) -> Term {
    Term::Compound(CompoundTerm { relation: relation.to_string(), params })
}

fn fact(relation: &str, atoms: &[&str]) -> Rule {
    Rule { head: term(relation, atoms.iter().map(|a| atom(a)).collect()), body: vec![] }
}

fn bindings(frame: &Frame) -> Vec<(String, String)> {
    (0..frame.len()).map(|i| (frame.variable(i).clone(), frame.atom(i).clone())).collect()
}

fn pairs(v: &[(&str, &str)]) -> Vec<(String, String)> {
    v.iter().map(|(a, b)| (a.to_string(), b.to_string())).collect()
}

fn answers(plan: &mut FramePlan, cache: &mut ViewCache) -> Vec<Vec<(String, String)>> {
    let mut result = Vec::new();
    while let Some(frame) = plan.next(cache) {
        result.push(bindings(&frame));
    }
    result
}

fn ask(engine: &StorageEngine, cache: &mut ViewCache, t: Term) -> Vec<Vec<(String, String)>> {
    let mut plan = query(engine, cache, t).unwrap();
    answers(&mut plan, cache)
}

fn sorted(mut v: Vec<Vec<(String, String)>>) -> Vec<Vec<(String, String)>> {
    v.sort();
    v
}

fn family() -> (StorageEngine, ViewCache) {
    let mut engine = StorageEngine::new("data".to_string());
    let mut cache = ViewCache::new();
    assert_clause(&mut engine, &mut cache, fact("parent", &["abraham", "isaac"])).unwrap();
    assert_clause(&mut engine, &mut cache, fact("parent", &["isaac", "jacob"])).unwrap();
    (engine, cache)
}

fn hierarchy() -> (StorageEngine, ViewCache) {
    let mut engine = StorageEngine::new("data".to_string());
    let mut cache = ViewCache::new();
    for (u, o) in [("a", "b"), ("b", "c"), ("c", "d")] {
        assert_clause(&mut engine, &mut cache, fact("reports", &[u, o])).unwrap();
    }
    // underling(U, O) :- reports(U, O).
    assert_clause(
        &mut engine,
        &mut cache,
        Rule {
            head: term("underling", vec![var("U"), var("O")]),
            body: vec![term("reports", vec![var("U"), var("O")])],
        },
    )
    .unwrap();
    // underling(U, O) :- reports(U, M), underling(M, O).
    assert_clause(
        &mut engine,
        &mut cache,
        Rule {
            head: term("underling", vec![var("U"), var("O")]),
            body: vec![
                term("reports", vec![var("U"), var("M")]),
                term("underling", vec![var("M"), var("O")]),
            ],
        },
    )
    .unwrap();
    (engine, cache)
}

fn underlings(v: &[(&str, &str)]) -> Vec<Vec<(String, String)>> {
    sorted(v.iter().map(|(u, o)| pairs(&[("O", o), ("U", u)])).collect())
}

#[test]
fn simple_facts_in_insertion_order() {
    let (engine, mut cache) = family();
    let found = ask(&engine, &mut cache, term("parent", vec![var("X"), var("Y")]));
    assert_eq!(
        found,
        vec![
            pairs(&[("X", "abraham"), ("Y", "isaac")]),
            pairs(&[("X", "isaac"), ("Y", "jacob")]),
        ]
    );
}

#[test]
fn ground_query() {
    let (engine, mut cache) = family();
    let found = ask(&engine, &mut cache, term("parent", vec![atom("abraham"), atom("isaac")]));
    assert_eq!(found, vec![pairs(&[])]);
    let found = ask(&engine, &mut cache, term("parent", vec![atom("abraham"), atom("jacob")]));
    assert!(found.is_empty());
}

#[test]
fn query_of_another_arity_matches_nothing() {
    let (engine, mut cache) = family();
    assert!(ask(&engine, &mut cache, term("parent", vec![var("X")])).is_empty());
    assert!(ask(&engine, &mut cache, term("parent", vec![var("X"), var("Y"), var("Z")])).is_empty());
}

#[test]
fn repeated_variable_wants_equal_columns() {
    let mut engine = StorageEngine::new("data".to_string());
    let mut cache = ViewCache::new();
    assert_clause(&mut engine, &mut cache, fact("likes", &["a", "a"])).unwrap();
    assert_clause(&mut engine, &mut cache, fact("likes", &["a", "b"])).unwrap();
    let found = ask(&engine, &mut cache, term("likes", vec![var("X"), var("X")]));
    assert_eq!(found, vec![pairs(&[("X", "a")])]);
}

#[test]
fn simple_view() {
    let (mut engine, mut cache) = family();
    // father(X, Y) :- parent(X, Y), male(X).
    assert_clause(
        &mut engine,
        &mut cache,
        Rule {
            head: term("father", vec![var("X"), var("Y")]),
            body: vec![term("parent", vec![var("X"), var("Y")]), term("male", vec![var("X")])],
        },
    )
    .unwrap();
    assert_clause(&mut engine, &mut cache, fact("male", &["abraham"])).unwrap();
    assert_clause(&mut engine, &mut cache, fact("male", &["isaac"])).unwrap();
    let found = ask(&engine, &mut cache, term("father", vec![var("F"), var("C")]));
    assert_eq!(
        found,
        vec![
            pairs(&[("C", "isaac"), ("F", "abraham")]),
            pairs(&[("C", "jacob"), ("F", "isaac")]),
        ]
    );
    // The view was run to its end, so the cache answers now, and the same.
    assert_eq!(
        cache.read_cache("father"),
        Some(vec![
            vec!["abraham".to_string(), "isaac".to_string()],
            vec!["isaac".to_string(), "jacob".to_string()],
        ])
    );
    let again = ask(&engine, &mut cache, term("father", vec![var("F"), var("C")]));
    assert_eq!(again, found);
}

#[test]
fn recursive_view() {
    let (engine, mut cache) = hierarchy();
    let found = ask(&engine, &mut cache, term("underling", vec![var("U"), var("O")]));
    assert_eq!(
        sorted(found.clone()),
        underlings(&[("a", "b"), ("b", "c"), ("c", "d"), ("a", "c"), ("b", "d"), ("a", "d")])
    );
    // Each pair comes once.
    assert_eq!(found.len(), 6);
}

#[test]
fn cache_invalidation() {
    let (mut engine, mut cache) = hierarchy();
    initialize_view_cache(&engine, &mut cache);
    let before = ask(&engine, &mut cache, term("underling", vec![var("U"), var("O")]));
    assert_eq!(before.len(), 6);
    assert!(cache.read_cache("underling").is_some());
    assert_clause(&mut engine, &mut cache, fact("reports", &["d", "e"])).unwrap();
    assert!(cache.read_cache("underling").is_none());
    let after = ask(&engine, &mut cache, term("underling", vec![var("U"), var("O")]));
    assert_eq!(
        sorted(after),
        underlings(&[
            ("a", "b"),
            ("b", "c"),
            ("c", "d"),
            ("a", "c"),
            ("b", "d"),
            ("a", "d"),
            ("c", "e"),
            ("b", "e"),
            ("a", "e"),
            ("d", "e"),
        ])
    );
}

#[test]
fn arity_mismatch() {
    let mut engine = StorageEngine::new("data".to_string());
    let mut cache = ViewCache::new();
    assert_clause(&mut engine, &mut cache, fact("r", &["a", "b"])).unwrap();
    let second = assert_clause(&mut engine, &mut cache, fact("r", &["a"]));
    assert!(matches!(second, Err(Error::ArityMismatch { expected: 2, got: 1 })));
    let found = ask(&engine, &mut cache, term("r", vec![var("X"), var("Y")]));
    assert_eq!(found, vec![pairs(&[("X", "a"), ("Y", "b")])]);
}

#[test]
fn fact_with_a_variable_is_malformed() {
    let mut engine = StorageEngine::new("data".to_string());
    let mut cache = ViewCache::new();
    let r = simple_assert(&mut engine, &mut cache, term("r", vec![atom("a"), var("X")]));
    match r {
        Err(Error::MalformedLine(m)) => assert_eq!(m, "unexpected variable: X"),
        other => panic!("{:?}", other),
    }
    assert_eq!(engine.count(), 0);
}

#[test]
fn fact_for_a_view_is_refused() {
    let (mut engine, mut cache) = hierarchy();
    let r = assert_clause(&mut engine, &mut cache, fact("underling", &["x", "y"]));
    match r {
        Err(Error::NotExtensional(name)) => assert_eq!(name, "underling"),
        other => panic!("{:?}", other),
    }
}

#[test]
fn rule_for_a_table_is_refused() {
    let (mut engine, mut cache) = hierarchy();
    let r = add_rule_to_view(
        &mut engine,
        &mut cache,
        Rule {
            head: term("reports", vec![var("U"), var("O")]),
            body: vec![term("underling", vec![var("U"), var("O")])],
        },
    );
    match r {
        Err(Error::NotIntensional(name)) => assert_eq!(name, "reports"),
        other => panic!("{:?}", other),
    }
}

#[test]
fn rule_with_an_atom_in_its_head_is_malformed() {
    let (mut engine, mut cache) = hierarchy();
    let r = add_rule_to_view(
        &mut engine,
        &mut cache,
        Rule {
            head: term("boss", vec![var("U"), atom("d")]),
            body: vec![term("reports", vec![var("U"), var("O")])],
        },
    );
    match r {
        Err(Error::MalformedLine(m)) => assert_eq!(m, "unexpected atom: d"),
        other => panic!("{:?}", other),
    }
    assert!(engine.get_relation("boss").is_none());
}

#[test]
fn rule_with_an_unbound_head_variable_is_malformed() {
    let (mut engine, mut cache) = hierarchy();
    let r = add_rule_to_view(
        &mut engine,
        &mut cache,
        Rule {
            head: term("boss", vec![var("U"), var("Z")]),
            body: vec![term("reports", vec![var("U"), var("O")])],
        },
    );
    match r {
        Err(Error::MalformedLine(m)) => assert_eq!(m, "head variable missing from the body: Z"),
        other => panic!("{:?}", other),
    }
    assert!(engine.get_relation("boss").is_none());
}

#[test]
fn rule_of_another_arity_is_refused() {
    let (mut engine, mut cache) = hierarchy();
    let r = add_rule_to_view(
        &mut engine,
        &mut cache,
        Rule {
            head: term("underling", vec![var("U")]),
            body: vec![term("reports", vec![var("U"), var("O")])],
        },
    );
    assert!(matches!(r, Err(Error::ArityMismatch { expected: 2, got: 1 })));
    match engine.get_relation("underling") {
        Some(Relation::Intension(view)) => assert_eq!(view.rules().len(), 2),
        _ => panic!("no view underling"),
    }
}

#[test]
fn unknown_relation() {
    let (engine, cache) = family();
    match query(&engine, &cache, term("child", vec![var("X")])) {
        Err(Error::MalformedLine(m)) => assert_eq!(m, "No relation \"child\" found."),
        other => panic!("{:?}", other.map(|_| ())),
    }
    match query(&engine, &cache, Term::Atomic(var("X"))) {
        Err(Error::MalformedLine(m)) => assert_eq!(m, "unexpected variable: X"),
        other => panic!("{:?}", other.map(|_| ())),
    }
}

#[test]
fn mutual_recursion_is_refused() {
    let mut engine = StorageEngine::new("data".to_string());
    let mut cache = ViewCache::new();
    assert_clause(&mut engine, &mut cache, fact("e", &["a"])).unwrap();
    for (head, body) in [("v", "w"), ("w", "v")] {
        assert_clause(
            &mut engine,
            &mut cache,
            Rule { head: term(head, vec![var("X")]), body: vec![term(body, vec![var("X")])] },
        )
        .unwrap();
    }
    match query(&engine, &cache, term("v", vec![var("X")])) {
        Err(Error::MalformedLine(m)) => assert_eq!(m, "mutual recursion unsupported"),
        other => panic!("{:?}", other.map(|_| ())),
    }
}

#[test]
fn reset_replays() {
    let (engine, mut cache) = hierarchy();
    let mut plan = query(&engine, &cache, term("underling", vec![var("U"), atom("d")])).unwrap();
    let first = plan.next(&mut cache).map(|f| bindings(&f));
    assert!(first.is_some());
    plan.reset();
    let all = answers(&mut plan, &mut cache);
    assert_eq!(all[0], first.unwrap());
    assert_eq!(sorted(all.clone()), sorted(vec![pairs(&[("U", "a")]), pairs(&[("U", "b")]), pairs(&[("U", "c")])]));
    // A plan that ran to its end stays there until it is reset.
    assert!(plan.next(&mut cache).is_none());
    plan.reset();
    assert_eq!(answers(&mut plan, &mut cache), all);
}

#[test]
fn view_with_two_rules_chains_them() {
    let mut engine = StorageEngine::new("data".to_string());
    let mut cache = ViewCache::new();
    assert_clause(&mut engine, &mut cache, fact("cat", &["tom"])).unwrap();
    assert_clause(&mut engine, &mut cache, fact("dog", &["rex"])).unwrap();
    for body in ["cat", "dog"] {
        assert_clause(
            &mut engine,
            &mut cache,
            Rule { head: term("pet", vec![var("X")]), body: vec![term(body, vec![var("X")])] },
        )
        .unwrap();
    }
    let found = ask(&engine, &mut cache, term("pet", vec![var("P")]));
    assert_eq!(found, vec![pairs(&[("P", "tom")]), pairs(&[("P", "rex")])]);
}

#[test]
fn join_without_common_variable_is_a_cross_product() {
    let mut engine = StorageEngine::new("data".to_string());
    let mut cache = ViewCache::new();
    for a in ["1", "2"] {
        assert_clause(&mut engine, &mut cache, fact("l", &[a])).unwrap();
    }
    for b in ["x", "y"] {
        assert_clause(&mut engine, &mut cache, fact("r", &[b])).unwrap();
    }
    assert_clause(
        &mut engine,
        &mut cache,
        Rule {
            head: term("both", vec![var("A"), var("B")]),
            body: vec![term("l", vec![var("A")]), term("r", vec![var("B")])],
        },
    )
    .unwrap();
    let found = ask(&engine, &mut cache, term("both", vec![var("A"), var("B")]));
    assert_eq!(
        found,
        vec![
            pairs(&[("A", "1"), ("B", "x")]),
            pairs(&[("A", "1"), ("B", "y")]),
            pairs(&[("A", "2"), ("B", "x")]),
            pairs(&[("A", "2"), ("B", "y")]),
        ]
    );
}

#[test]
fn match_tuple_binds_in_name_order() {
    let pattern = Pattern::new(vec![var("Z"), atom("k"), var("A"), var("Z")]);
    let tuple = |v: &[&str]| v.iter().map(|s| s.to_string()).collect::<Vec<String>>();
    let frame = pattern.match_tuple(&tuple(&["1", "k", "2", "1"])).unwrap();
    assert_eq!(bindings(&frame), pairs(&[("A", "2"), ("Z", "1")]));
    assert_eq!(frame.get(&"Z".to_string()), Some(&"1".to_string()));
    assert_eq!(frame.get(&"Q".to_string()), None);
    assert!(pattern.match_tuple(&tuple(&["1", "k", "2", "3"])).is_none());
    assert!(pattern.match_tuple(&tuple(&["1", "j", "2", "1"])).is_none());
    assert!(pattern.match_tuple(&tuple(&["1", "k", "2"])).is_none());
}

#[test]
fn merge_frames_wants_agreement() {
    let mut f1 = Frame::new();
    f1.insert("X".to_string(), "a".to_string());
    f1.insert("Y".to_string(), "b".to_string());
    let mut f2 = Frame::new();
    f2.insert("Y".to_string(), "b".to_string());
    f2.insert("W".to_string(), "c".to_string());
    let merged = merge_frames(&f1, &f2).unwrap();
    assert_eq!(bindings(&merged), pairs(&[("W", "c"), ("X", "a"), ("Y", "b")]));
    f2.insert("X".to_string(), "z".to_string());
    assert!(merge_frames(&f1, &f2).is_none());
}

#[test]
fn dependencies_of_views_are_declared() {
    let (engine, _) = hierarchy();
    let mut cache = ViewCache::new();
    initialize_view_cache(&engine, &mut cache);
    cache.add_tuple("underling".to_string(), vec!["a".to_string(), "b".to_string()]);
    cache.add_tuple("reports".to_string(), vec!["a".to_string(), "b".to_string()]);
    cache.invalidate("reports");
    assert!(cache.read_cache("underling").is_none());
    assert!(cache.read_cache("reports").is_none());
}

#[test]
fn run_collects_the_answers() {
    let (engine, mut cache) = family();
    let mut plan = query(&engine, &cache, term("parent", vec![var("X"), atom("jacob")])).unwrap();
    let frames = plan.run(&mut cache);
    assert_eq!(frames.len(), 1);
    assert_eq!(bindings(&frames[0]), pairs(&[("X", "isaac")]));
    assert!(plan.run(&mut cache).is_empty());
    plan.reset();
    assert_eq!(plan.run(&mut cache).len(), 1);
}

#[test]
fn error_messages() {
    assert_eq!(
        Error::ArityMismatch { expected: 2, got: 10 }.message(),
        "arity mismatch: expected arity 2 but got 10"
    );
    assert_eq!(Error::ArityMismatch { expected: 0, got: 1 }.description(), "arity mismatch");
    assert_eq!(Error::Lexer("x".to_string()).message(), "lexer error: x");
    assert_eq!(Error::Parser("x".to_string()).message(), "parser error: x");
    assert_eq!(
        Error::NotExtensional("v".to_string()).message(),
        "not an extensional relation: v"
    );
    assert_eq!(
        Error::NotIntensional("t".to_string()).message(),
        "not an intensional relation: t"
    );
    assert_eq!(
        Error::MalformedLine("x".to_string()).message(),
        "malformed query/assertion: x"
    );
    assert_eq!(Error::StorageError("x".to_string()).message(), "storage error: x");
    assert_eq!(
        Error::BadFilename("a\"b".to_string()).message(),
        "bad filename for table file: \"a\\\"b\""
    );
    assert_eq!(Error::MalformedLine("x".to_string()).description(), "evaluation error");
    assert_eq!(Error::StorageError("x".to_string()).description(), "storage error");
}

#[test]
fn view_with_a_repeated_tuple_is_cached_once() {
    let mut engine = StorageEngine::new("data".to_string());
    let mut cache = ViewCache::new();
    assert_clause(&mut engine, &mut cache, fact("a", &["1"])).unwrap();
    assert_clause(&mut engine, &mut cache, fact("b", &["1"])).unwrap();
    for body in ["a", "b"] {
        assert_clause(
            &mut engine,
            &mut cache,
            Rule { head: term("v", vec![var("X")]), body: vec![term(body, vec![var("X")])] },
        )
        .unwrap();
    }
    let first = ask(&engine, &mut cache, term("v", vec![var("X")]));
    assert_eq!(first, vec![pairs(&[("X", "1")]), pairs(&[("X", "1")])]);
    let second = ask(&engine, &mut cache, term("v", vec![var("X")]));
    assert_eq!(second, vec![pairs(&[("X", "1")])]);
}

#[test]
fn nested_views() {
    let (mut engine, mut cache) = hierarchy();
    // low(U) :- underling(U, d).
    assert_clause(
        &mut engine,
        &mut cache,
        Rule {
            head: term("low", vec![var("U")]),
            body: vec![term("underling", vec![var("U"), atom("d")])],
        },
    )
    .unwrap();
    let found = ask(&engine, &mut cache, term("low", vec![var("W")]));
    assert_eq!(
        sorted(found),
        sorted(vec![pairs(&[("W", "a")]), pairs(&[("W", "b")]), pairs(&[("W", "c")])])
    );
    // Both views were run to their ends, so the cache keeps both.
    assert!(cache.read_cache("low").is_some());
    assert!(cache.read_cache("underling").is_some());
}

#[test]
fn rule_without_a_body_cannot_be_planned() {
    let mut engine = StorageEngine::new("data".to_string());
    let mut cache = ViewCache::new();
    add_rule_to_view(
        &mut engine,
        &mut cache,
        Rule { head: Term::Atomic(atom("always")), body: vec![] },
    )
    .unwrap();
    match query(&engine, &cache, Term::Atomic(atom("always"))) {
        Err(Error::MalformedLine(m)) => assert_eq!(m, "empty rule body"),
        other => panic!("{:?}", other.map(|_| ())),
    }
}

fn rewind<P: Plan>(plan: &mut P) {
    plan.reset()
}

#[test]
fn plans_reset_through_the_trait() {
    let (engine, mut cache) = family();
    let mut plan = query(&engine, &cache, term("parent", vec![var("X"), var("Y")])).unwrap();
    assert_eq!(answers(&mut plan, &mut cache).len(), 2);
    rewind(&mut plan);
    assert_eq!(answers(&mut plan, &mut cache).len(), 2);
}

#[test]
fn two_recursive_rules() {
    let mut engine = StorageEngine::new("data".to_string());
    let mut cache = ViewCache::new();
    for (a, b) in [("a", "b"), ("b", "c"), ("x", "y")] {
        assert_clause(&mut engine, &mut cache, fact("edge", &[a, b])).unwrap();
    }
    let rule = |body: Vec<Term>| Rule { head: term("linked", vec![var("A"), var("B")]), body };
    // linked(A, B) :- edge(A, B).
    // linked(A, B) :- linked(B, A).
    // linked(A, B) :- linked(A, M), linked(M, B).
    assert_clause(&mut engine, &mut cache, rule(vec![term("edge", vec![var("A"), var("B")])]))
        .unwrap();
    assert_clause(&mut engine, &mut cache, rule(vec![term("linked", vec![var("B"), var("A")])]))
        .unwrap();
    assert_clause(
        &mut engine,
        &mut cache,
        rule(vec![
            term("linked", vec![var("A"), var("M")]),
            term("linked", vec![var("M"), var("B")]),
        ]),
    )
    .unwrap();
    let found = ask(&engine, &mut cache, term("linked", vec![var("A"), var("B")]));
    // Two components: {a, b, c} and {x, y}, each linked with itself fully.
    assert_eq!(found.len(), 9 + 4);
    let from_a = ask(&engine, &mut cache, term("linked", vec![atom("a"), var("B")]));
    assert_eq!(
        sorted(from_a),
        sorted(vec![pairs(&[("B", "a")]), pairs(&[("B", "b")]), pairs(&[("B", "c")])])
    );
}

#[test]
fn recursive_view_over_a_recursive_view() {
    let (mut engine, mut cache) = hierarchy();
    // above(O, U) :- underling(U, O).
    // above(O, U) :- above(O, M), underling(U, M).
    assert_clause(
        &mut engine,
        &mut cache,
        Rule {
            head: term("above", vec![var("O"), var("U")]),
            body: vec![term("underling", vec![var("U"), var("O")])],
        },
    )
    .unwrap();
    assert_clause(
        &mut engine,
        &mut cache,
        Rule {
            head: term("above", vec![var("O"), var("U")]),
            body: vec![
                term("above", vec![var("O"), var("M")]),
                term("underling", vec![var("U"), var("M")]),
            ],
        },
    )
    .unwrap();
    let found = ask(&engine, &mut cache, term("above", vec![atom("d"), var("U")]));
    assert_eq!(
        sorted(found),
        sorted(vec![pairs(&[("U", "a")]), pairs(&[("U", "b")]), pairs(&[("U", "c")])])
    );
    // Planning ran the view below to its end, but kept nothing of it.
    assert!(cache.read_cache("underling").is_none());
    assert!(cache.read_cache("above").is_some());
}

#[test]
fn mutual_recursion_below_a_recursive_rule_is_refused() {
    let mut engine = StorageEngine::new("data".to_string());
    let mut cache = ViewCache::new();
    assert_clause(&mut engine, &mut cache, fact("e", &["a"])).unwrap();
    // v(X) :- e(X).  v(X) :- v(X), w(X).  w(X) :- v(X).
    assert_clause(
        &mut engine,
        &mut cache,
        Rule { head: term("v", vec![var("X")]), body: vec![term("e", vec![var("X")])] },
    )
    .unwrap();
    assert_clause(
        &mut engine,
        &mut cache,
        Rule {
            head: term("v", vec![var("X")]),
            body: vec![term("v", vec![var("X")]), term("w", vec![var("X")])],
        },
    )
    .unwrap();
    assert_clause(
        &mut engine,
        &mut cache,
        Rule { head: term("w", vec![var("X")]), body: vec![term("v", vec![var("X")])] },
    )
    .unwrap();
    match query(&engine, &cache, term("v", vec![var("X")])) {
        Err(Error::MalformedLine(m)) => assert_eq!(m, "mutual recursion unsupported"),
        other => panic!("{:?}", other.map(|_| ())),
    }
}

#[test]
fn cache_answers_for_a_relation_that_the_database_lacks() {
    let (engine, mut cache) = family();
    cache.add_tuple("ghost".to_string(), vec!["boo".to_string()]);
    let found = ask(&engine, &mut cache, term("ghost", vec![var("G")]));
    assert_eq!(found, vec![pairs(&[("G", "boo")])]);
}
