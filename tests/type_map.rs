use clippers::type_map::TypeMap;

#[test]
fn insert_replaces_in_place() {
    let mut m = TypeMap::new();
    assert!(m.is_empty());
    m.insert("a".to_string(), vec![1]);
    m.insert("b".to_string(), vec![2]);
    m.insert("a".to_string(), vec![3]);
    assert_eq!(m.len(), 2);
    assert_eq!(m.keys(), vec!["a".to_string(), "b".to_string()]);
    assert_eq!(m.get(&"a".to_string()), Some(&vec![3]));
    assert_eq!(m.get(&"c".to_string()), None);
}

#[test]
fn remove_takes_payload_out() {
    let mut m = TypeMap::new();
    m.insert("a".to_string(), vec![1]);
    m.insert("b".to_string(), vec![2]);
    assert_eq!(m.remove(&"a".to_string()), Some(vec![1]));
    assert_eq!(m.remove(&"a".to_string()), None);
    assert_eq!(m.keys(), vec!["b".to_string()]);
    let c = m.copy();
    assert_eq!(c.entry_at(0), (&"b".to_string(), &vec![2]));
}
