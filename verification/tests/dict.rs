use cloudmon_metrics::dict::Dict;

fn abc() -> Dict<u32> {
    let mut dict = Dict::new();
    dict.insert("b".to_string(), 1);
    dict.insert("a".to_string(), 2);
    dict.insert("c".to_string(), 3);
    dict
}

#[test]
fn dict_keeps_the_order_of_its_names() {
    let dict = abc();
    assert_eq!(dict.len(), 3);
    assert!(!dict.is_empty());
    assert_eq!(dict.name_at(0), "b");
    assert_eq!(dict.name_at(2), "c");
    assert_eq!(*dict.value_at(1), 2);
    assert_eq!(
        *dict.entries(),
        vec![
            ("b".to_string(), 1),
            ("a".to_string(), 2),
            ("c".to_string(), 3)
        ]
    );
}

#[test]
fn dict_finds_values_by_name() {
    let dict = abc();
    assert_eq!(dict.get("a"), Some(&2));
    assert_eq!(dict.get("d"), None);
    assert_eq!(dict.position("c"), Some(2));
    assert_eq!(dict.position(""), None);
    assert!(dict.contains_key("b"));
    assert!(!dict.contains_key("B"));
}

#[test]
fn dict_holds_each_name_once() {
    let mut dict = abc();
    dict.insert("a".to_string(), 20);
    assert_eq!(dict.len(), 3);
    assert_eq!(dict.get("a"), Some(&20));
    assert_eq!(dict.position("a"), Some(1));
    assert_eq!(
        dict.into_entries(),
        vec![
            ("b".to_string(), 1),
            ("a".to_string(), 20),
            ("c".to_string(), 3)
        ]
    );
}

#[test]
fn dict_is_made_of_entries() {
    let dict = Dict::from_entries(vec![("x".to_string(), 'x'), ("y".to_string(), 'y')]);
    assert_eq!(dict.get("y"), Some(&'y'));
    assert_eq!(dict.len(), 2);
    let empty: Dict<char> = Dict::new();
    assert!(empty.is_empty());
    assert_eq!(empty.get("x"), None);
}
