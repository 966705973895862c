use gugu_guard::strmap::StrMap;

#[test]
fn insert_replaces_in_place_and_appends_new_keys() {
    let mut m: StrMap<i32> = StrMap::new();
    assert!(m.is_empty());
    assert_eq!(m.insert("a".to_string(), 1), None);
    assert_eq!(m.insert("b".to_string(), 2), None);
    assert_eq!(m.insert("a".to_string(), 3), Some(1));
    assert_eq!(m.len(), 2);
    assert_eq!(m.key_at(0), "a");
    assert_eq!(*m.value_at(0), 3);
    assert_eq!(m.get("b"), Some(&2));
    assert!(m.contains_key("b"));
    assert_eq!(m.remove("a"), Some(3));
    assert_eq!(m.get("a"), None);
    assert_eq!(m.into_entries(), vec![("b".to_string(), 2)]);
}
