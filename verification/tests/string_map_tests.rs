use zenscript_toolkit::string_map::StringMap;

#[test]
fn map_insert_get_remove() {
    let mut m = StringMap::new();
    assert!(m.is_empty());
    assert_eq!(m.insert("b".to_string(), "1".to_string()), None);
    assert_eq!(m.insert("a".to_string(), "2".to_string()), None);
    assert_eq!(m.insert("b".to_string(), "3".to_string()), Some("1".to_string()));
    assert_eq!(m.len(), 2);
    assert_eq!(m.get("b").map(|s| s.as_str()), Some("3"));
    assert!(m.contains_key("a"));
    assert!(!m.contains_key("c"));
    assert_eq!(m.key_at(0).as_str(), "a");
    assert_eq!(m.value_at(1).as_str(), "3");
    assert_eq!(m.remove("a"), Some("2".to_string()));
    assert_eq!(m.remove("a"), None);
    assert_eq!(m.to_vec(), vec![("b".to_string(), "3".to_string())]);
}

#[test]
fn map_orders_like_btreemap() {
    let keys = ["zeta", "alpha", "Beta", "alp", "ä", "z", "", "alpha2", "日本"];
    let mut m = StringMap::new();
    let mut reference = std::collections::BTreeMap::new();
    for (i, k) in keys.iter().enumerate() {
        m.insert(k.to_string(), i.to_string());
        reference.insert(k.to_string(), i.to_string());
    }
    let expected: Vec<(String, String)> = reference.into_iter().collect();
    assert_eq!(m.to_vec(), expected);
}
