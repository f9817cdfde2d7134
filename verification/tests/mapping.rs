use zenv::mapping::Mapping;

#[test]
fn new_mapping_is_empty() {
    let m = Mapping::new();
    assert_eq!(m.len(), 0);
    assert!(m.is_empty());
    assert_eq!(m.get("A"), None);
    assert!(!m.contains_key(""));
    assert_eq!(m.into_pairs(), Vec::new());
}

#[test]
fn insert_adds_a_key() {
    let mut m = Mapping::new();
    m.insert("A".to_string(), "1".to_string());
    m.insert("".to_string(), "".to_string());
    assert_eq!(m.len(), 2);
    assert!(!m.is_empty());
    assert_eq!(m.get("A"), Some(&"1".to_string()));
    assert_eq!(m.get(""), Some(&String::new()));
    assert_eq!(m.get("a"), None);
    assert!(m.contains_key("A"));
    assert!(!m.contains_key("B"));
}

#[test]
fn insert_replaces_the_value_in_place() {
    let mut m = Mapping::new();
    m.insert("A".to_string(), "1".to_string());
    m.insert("B".to_string(), "2".to_string());
    m.insert("A".to_string(), "3".to_string());
    assert_eq!(m.len(), 2);
    assert_eq!(m.get("A"), Some(&"3".to_string()));
    assert_eq!(m.get("B"), Some(&"2".to_string()));
    let (k, v) = m.entry(0);
    assert_eq!((k.as_str(), v.as_str()), ("A", "3"));
    let (k, v) = m.entry(1);
    assert_eq!((k.as_str(), v.as_str()), ("B", "2"));
    assert_eq!(
        m.into_pairs(),
        vec![
            ("A".to_string(), "3".to_string()),
            ("B".to_string(), "2".to_string()),
        ]
    );
}

#[test]
fn keys_differ_by_any_character() {
    let mut m = Mapping::new();
    m.insert("key".to_string(), "1".to_string());
    m.insert("Key".to_string(), "2".to_string());
    m.insert("key ".to_string(), "3".to_string());
    m.insert("ke".to_string(), "4".to_string());
    m.insert("kéy".to_string(), "5".to_string());
    assert_eq!(m.len(), 5);
    assert_eq!(m.get("key"), Some(&"1".to_string()));
    assert_eq!(m.get("Key"), Some(&"2".to_string()));
    assert_eq!(m.get("key "), Some(&"3".to_string()));
    assert_eq!(m.get("ke"), Some(&"4".to_string()));
    assert_eq!(m.get("kéy"), Some(&"5".to_string()));
    assert_eq!(m.get("k"), None);
}
