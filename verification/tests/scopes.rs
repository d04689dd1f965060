use lib::scope::{compare_names, same_name, NameOrder, Scope};
use lib::value::Value;

#[test]
fn insert_then_get() {
    let mut s = Scope::new();
    assert!(s.get("a").is_none());
    s.insert("b".to_string(), Value::Int(2), false);
    s.insert("a".to_string(), Value::Int(1), true);
    let a = s.get("a").unwrap();
    assert_eq!(a.value, Value::Int(1));
    assert!(a.mutable);
    assert!(s.contains_key("b"));
    assert!(!s.contains_key("c"));
}

#[test]
fn insert_replaces_an_existing_binding() {
    let mut s = Scope::new();
    s.insert("x".to_string(), Value::Int(1), true);
    s.insert("x".to_string(), Value::Nil, false);
    assert_eq!(s.bindings().len(), 1);
    let x = s.get("x").unwrap();
    assert_eq!(x.value, Value::Nil);
    assert!(!x.mutable);
}

#[test]
fn bindings_come_in_name_order() {
    let mut s = Scope::new();
    for name in ["pear", "apple", "Zebra", "app", "äpfel"] {
        s.insert(name.to_string(), Value::Nil, false);
    }
    let names: Vec<&str> = s.bindings().iter().map(|b| b.name.as_str()).collect();
    assert_eq!(names, vec!["Zebra", "app", "apple", "pear", "äpfel"]);
}

#[test]
fn names_compare_by_code_point() {
    assert_eq!(compare_names("a", "b"), NameOrder::Before);
    assert_eq!(compare_names("ab", "a"), NameOrder::After);
    assert_eq!(compare_names("", ""), NameOrder::Same);
    assert_eq!(compare_names("é", "z"), NameOrder::After);
    assert!(same_name("sys:args", "sys:args"));
    assert!(!same_name("sys:args", "sys:arg"));
}
