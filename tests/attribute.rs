use multimesh::attribute::{AttributeContainer, AttributeContainerMut, AttributeMap, AttributeName};

#[test]
fn set_twice_keeps_one_entry_with_later_value() {
    let mut map = AttributeMap::new();
    map.set(AttributeName::Key("ref".to_string()), "1".to_string());
    map.set(AttributeName::Key("ref".to_string()), "2".to_string());
    assert_eq!(map.len(), 1);
    assert_eq!(map.get(&AttributeName::Key("ref".to_string())), Some(&"2".to_string()));
}

#[test]
fn get_at_past_the_end_is_none() {
    let mut map = AttributeMap::new();
    map.set(AttributeName::Index(0), "a".to_string());
    map.set(AttributeName::Index(1), "b".to_string());
    assert!(map.get_at(1).is_some());
    assert!(map.get_at(2).is_none());
    assert!(map.get_at(3).is_none());
    assert!(map.get_at(usize::MAX).is_none());
}

#[test]
fn get_at_follows_name_order() {
    let mut map = AttributeMap::new();
    map.set(AttributeName::Key("b".to_string()), "kb".to_string());
    map.set(AttributeName::Index(7), "i7".to_string());
    map.set(AttributeName::Key("a".to_string()), "ka".to_string());
    map.set(AttributeName::Index(2), "i2".to_string());
    let names: Vec<AttributeName> = (0..map.len()).map(|i| map.get_at(i).unwrap().0.clone()).collect();
    assert_eq!(
        names,
        vec![
            AttributeName::Index(2),
            AttributeName::Index(7),
            AttributeName::Key("a".to_string()),
            AttributeName::Key("b".to_string()),
        ]
    );
    assert_eq!(map.get_at(0).unwrap().1, "i2");
}

#[test]
fn missing_name_is_none() {
    let map = AttributeMap::new();
    assert_eq!(map.get(&AttributeName::Index(0)), None);
    assert_eq!(map.len(), 0);
}

#[test]
fn names_as_text() {
    assert_eq!(AttributeName::Index(0).to_string(), "0");
    assert_eq!(AttributeName::Index(12).to_string(), "12");
    assert_eq!(AttributeName::Index(usize::MAX).to_string(), usize::MAX.to_string());
    assert_eq!(AttributeName::Key("w".to_string()).to_string(), "w");
    assert!(AttributeName::from(3usize).is_index());
    assert!(AttributeName::from("k".to_string()).is_key());
    assert!(!AttributeName::Index(1).is_key());
}

#[test]
fn keys_order_by_code_point() {
    assert!(AttributeName::Key("Z".to_string()).less_than(&AttributeName::Key("a".to_string())));
    assert!(AttributeName::Key("ab".to_string()).less_than(&AttributeName::Key("b".to_string())));
    assert!(AttributeName::Key("a".to_string()).less_than(&AttributeName::Key("ab".to_string())));
    assert!(AttributeName::Index(9).less_than(&AttributeName::Key("".to_string())));
    assert!(!AttributeName::Key("a".to_string()).less_than(&AttributeName::Key("a".to_string())));
}

#[test]
fn from_container_copies_entries_in_order() {
    let mut map = AttributeMap::new();
    map.set(AttributeName::Key("b".to_string()), "2".to_string());
    map.set(AttributeName::Index(4), "1".to_string());
    let copy = AttributeMap::from_container(&map);
    assert_eq!(copy.len(), 2);
    assert_eq!(copy.get_at(0).map(|(n, v)| (n.clone(), v.clone())), Some((AttributeName::Index(4), "1".to_string())));
    assert_eq!(copy.get(&AttributeName::Key("b".to_string())), Some(&"2".to_string()));
}
