use data_goblin::cache::ViewCache;

fn tuple(v: &[&str]) -> Vec<String> {
    v.iter().map(|s| s.to_string()).collect()
}

#[test]
fn cache_keeps_each_tuple_once() {
    let mut cache = ViewCache::new();
    assert_eq!(cache.read_cache("v"), None);
    cache.add_tuple("v".to_string(), tuple(&["a", "b"]));
    cache.add_tuple("v".to_string(), tuple(&["c", "d"]));
    cache.add_tuple("v".to_string(), tuple(&["a", "b"]));
    assert_eq!(cache.read_cache("v"), Some(vec![tuple(&["a", "b"]), tuple(&["c", "d"])]));
    assert_eq!(cache.read_cache("w"), None);
}

#[test]
fn invalidate_follows_dependencies() {
    let mut cache = ViewCache::new();
    // b reads from a, c reads from b, d stands alone.
    cache.add_dependency("a".to_string(), "b".to_string());
    cache.add_dependency("b".to_string(), "c".to_string());
    for name in ["a", "b", "c", "d"] {
        cache.add_tuple(name.to_string(), tuple(&[name]));
    }
    cache.invalidate("b");
    assert_eq!(cache.read_cache("a"), Some(vec![tuple(&["a"])]));
    assert_eq!(cache.read_cache("b"), None);
    assert_eq!(cache.read_cache("c"), None);
    assert_eq!(cache.read_cache("d"), Some(vec![tuple(&["d"])]));
    cache.invalidate("a");
    assert_eq!(cache.read_cache("a"), None);
    assert_eq!(cache.read_cache("d"), Some(vec![tuple(&["d"])]));
}

#[test]
fn invalidate_ends_on_a_cycle() {
    let mut cache = ViewCache::new();
    cache.add_dependency("a".to_string(), "b".to_string());
    cache.add_dependency("b".to_string(), "a".to_string());
    cache.add_dependency("a".to_string(), "a".to_string());
    cache.add_tuple("a".to_string(), tuple(&["x"]));
    cache.add_tuple("b".to_string(), tuple(&["y"]));
    cache.add_tuple("c".to_string(), tuple(&["z"]));
    cache.invalidate("b");
    assert_eq!(cache.read_cache("a"), None);
    assert_eq!(cache.read_cache("b"), None);
    assert_eq!(cache.read_cache("c"), Some(vec![tuple(&["z"])]));
}
