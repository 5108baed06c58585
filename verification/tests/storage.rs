use data_goblin::storage::{Relation, StorageEngine, Table};

fn test_table(v: &[Vec<&str>]) -> Table {
    let mut t = Table::new(v[0].len());
    for tuple in v {
        t.assert_tuple(tuple.iter().map(|r| r.to_string()).collect()).unwrap();
    }
    t
}

fn table_as_vec(t: &Table) -> Vec<Vec<String>> {
    let mut scan = t.scan();
    let mut result = Vec::new();
    while let Some(tuple) = scan.next() {
        result.push(tuple);
    }
    result
}

#[test]
fn empty_table() {
    let t = Table::new(10);
    let expected: Vec<Vec<String>> = vec![];
    assert_eq!(table_as_vec(&t), expected);
}

#[test]
fn table_scan() {
    let expected_contents = vec![vec!["a", "b", "c"], vec!["d", "e", "f"]];
    let t = test_table(&expected_contents);
    let mut expected: Vec<Vec<String>> = Vec::new();

    for tuple in &expected_contents {
        expected.push(tuple.iter().map(|s| s.to_string()).collect())
    }

    assert_eq!(table_as_vec(&t), expected);
}

#[test]
fn initially_empty() {
    let engine = StorageEngine::new("_test_dir".to_string());
    assert!(engine.get_relation("test relation").is_none());
}

#[test]
fn table_refuses_other_arity() {
    let mut t = Table::new(2);
    t.assert_tuple(vec!["a".to_string(), "b".to_string()]).unwrap();
    let r = t.assert_tuple(vec!["a".to_string()]);
    assert!(matches!(
        r,
        Err(data_goblin::error::Error::ArityMismatch { expected: 2, got: 1 })
    ));
    assert_eq!(table_as_vec(&t), vec![vec!["a".to_string(), "b".to_string()]]);
    assert_eq!(t.arity(), 2);
    assert_eq!(t.contents(), &vec!["a".to_string(), "b".to_string()]);
}

#[test]
fn table_of_no_columns_keeps_no_row() {
    let mut t = Table::new(0);
    t.assert_tuple(vec![]).unwrap();
    assert!(table_as_vec(&t).is_empty());
}

#[test]
fn table_from_parts_wants_full_rows() {
    let atoms = |v: &[&str]| v.iter().map(|s| s.to_string()).collect::<Vec<String>>();
    let t = Table::from_parts(atoms(&["a", "b", "c", "d"]), 2).unwrap();
    assert_eq!(table_as_vec(&t), vec![atoms(&["a", "b"]), atoms(&["c", "d"])]);
    assert!(Table::from_parts(atoms(&["a", "b", "c"]), 2).is_none());
    assert!(Table::from_parts(atoms(&["a"]), 0).is_none());
    assert!(Table::from_parts(atoms(&[]), 0).is_some());
}

#[test]
fn scan_rewinds() {
    let t = test_table(&[vec!["a"], vec!["b"]]);
    let mut scan = t.scan();
    assert_eq!(scan.next(), Some(vec!["a".to_string()]));
    assert_eq!(scan.next(), Some(vec!["b".to_string()]));
    assert_eq!(scan.next(), None);
    assert_eq!(scan.next(), None);
    scan.rewind();
    assert_eq!(scan.next(), Some(vec!["a".to_string()]));
}

#[test]
fn engine_creates_and_marks() {
    let mut engine = StorageEngine::new("data".to_string());
    assert_eq!(engine.data_dir(), "data");
    assert_eq!(engine.count(), 0);
    {
        let rel = engine.get_or_create_relation("r".to_string(), Relation::Extension(Table::new(1)));
        match rel {
            Relation::Extension(t) => t.assert_tuple(vec!["a".to_string()]).unwrap(),
            Relation::Intension(_) => panic!("made a table, found a view"),
        }
    }
    // The initial variant is ignored for a relation that exists.
    {
        let rel = engine.get_or_create_relation("r".to_string(), Relation::Extension(Table::new(7)));
        match rel {
            Relation::Extension(t) => assert_eq!(t.arity(), 1),
            Relation::Intension(_) => panic!("made a table, found a view"),
        }
    }
    assert_eq!(engine.get_relations(), vec!["r"]);
    assert!(engine.get_relation("r").is_some());
    assert!(engine.get_relation("s").is_none());
    assert!(engine.get_relation_mut("s").is_none());
    assert_eq!(engine.write_back(), vec!["r".to_string()]);
    // Nothing is dirty now.
    assert!(engine.write_back().is_empty());
    assert!(engine.get_relation_mut("r").is_some());
    assert_eq!(engine.write_back(), vec!["r".to_string()]);
}

#[test]
fn engine_restores_clean() {
    let mut engine = StorageEngine::new("data".to_string());
    engine.restore("r".to_string(), Relation::Extension(Table::new(2)));
    engine.restore("s".to_string(), Relation::Extension(Table::new(1)));
    engine.restore("r".to_string(), Relation::Extension(Table::new(3)));
    assert_eq!(engine.get_relations(), vec!["r", "s"]);
    match engine.get_relation("r") {
        Some(Relation::Extension(t)) => assert_eq!(t.arity(), 3),
        _ => panic!("no table r"),
    }
    assert!(engine.write_back().is_empty());
}

#[test]
fn numbers_in_decimal() {
    assert_eq!(data_goblin::text::decimal(0), "0");
    assert_eq!(data_goblin::text::decimal(7), "7");
    assert_eq!(data_goblin::text::decimal(10), "10");
    assert_eq!(data_goblin::text::decimal(12345), "12345");
    assert_eq!(data_goblin::text::decimal(usize::MAX), usize::MAX.to_string());
}

#[test]
fn names_in_order() {
    assert!(data_goblin::text::text_less("A", "B"));
    assert!(data_goblin::text::text_less("A", "AB"));
    assert!(!data_goblin::text::text_less("AB", "A"));
    assert!(!data_goblin::text::text_less("A", "A"));
    assert!(data_goblin::text::text_less("Z", "a"));
    assert!(data_goblin::text::text_less("", "a"));
    let mut names = vec!["Xy", "X", "b", "B", "é", "e", "Xa"];
    let mut by_std = names.clone();
    by_std.sort();
    names.sort_by(|a, b| {
        if data_goblin::text::text_less(a, b) {
            std::cmp::Ordering::Less
        } else if data_goblin::text::text_less(b, a) {
            std::cmp::Ordering::Greater
        } else {
            std::cmp::Ordering::Equal
        }
    });
    assert_eq!(names, by_std);
}
