use trace_engine::AttributeMap;

fn keys(map: &AttributeMap) -> Vec<String> {
    (0..map.len())
        .map(|i| map.entry_at(i).0.clone())
        .collect()
}

#[test]
fn entries_stand_in_ascending_order_of_their_keys() {
    let mut map = AttributeMap::new();
    for key in ["b", "a", "ab", "", "Z", "\u{e9}", "a\u{0}", "aa"] {
        map.insert(key.to_string(), key.to_uppercase());
    }
    assert_eq!(
        keys(&map),
        vec!["", "Z", "a", "a\u{0}", "aa", "ab", "b", "\u{e9}"]
    );
    let mut sorted = keys(&map);
    sorted.sort();
    assert_eq!(keys(&map), sorted);
    assert_eq!(map.entry_at(2), (&"a".to_string(), &"A".to_string()));
}

#[test]
fn inserting_under_a_key_again_replaces_the_value() {
    let mut map = AttributeMap::new();
    map.insert("k".to_string(), "1".to_string());
    map.insert("j".to_string(), "2".to_string());
    map.insert("k".to_string(), "3".to_string());
    assert_eq!(map.len(), 2);
    assert_eq!(map.get("k"), Some(&"3".to_string()));
    assert_eq!(map.get("j"), Some(&"2".to_string()));
    assert_eq!(map.get("K"), None);
}

#[test]
fn extending_keeps_the_values_of_the_other_map() {
    let mut base = AttributeMap::new();
    base.insert("shared".to_string(), "base".to_string());
    base.insert("base".to_string(), "1".to_string());
    let mut other = AttributeMap::new();
    other.insert("shared".to_string(), "other".to_string());
    other.insert("other".to_string(), "2".to_string());
    base.extend(other);
    assert_eq!(keys(&base), vec!["base", "other", "shared"]);
    assert_eq!(base.get("shared"), Some(&"other".to_string()));
}

#[test]
fn the_empty_map_holds_nothing() {
    let map = AttributeMap::default();
    assert_eq!(map.len(), 0);
    assert_eq!(map.get(""), None);
    let copy = map.clone();
    assert_eq!(copy.len(), 0);
}

#[test]
fn a_clone_holds_the_same_entries() {
    let mut map = AttributeMap::new();
    map.insert("x".to_string(), "1".to_string());
    map.insert("y".to_string(), "2".to_string());
    let copy = map.clone();
    map.insert("x".to_string(), "changed".to_string());
    assert_eq!(copy.len(), 2);
    assert_eq!(copy.get("x"), Some(&"1".to_string()));
    assert_eq!(copy.get("y"), Some(&"2".to_string()));
}
