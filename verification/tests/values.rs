use bitschema::value::{Value, Values};

#[test]
fn new_values_are_empty() {
    let values = Values::new();
    assert_eq!(values.len(), 0);
    assert_eq!(values.get("a"), None);
}

#[test]
fn inserted_value_is_found_under_its_name() {
    let mut values = Values::new();
    values.insert("a", Value::Int(-4));
    values.insert("b", Value::Boolean(true));
    values.insert("c", Value::Buffer(&[1, 2, 3]));
    assert_eq!(values.len(), 3);
    assert_eq!(values.get("a"), Some(Value::Int(-4)));
    assert_eq!(values.get("b"), Some(Value::Boolean(true)));
    assert_eq!(values.get("c"), Some(Value::Buffer(&[1, 2, 3])));
    assert_eq!(values.get("d"), None);
    assert_eq!(values.get(""), None);
}

#[test]
fn later_insert_replaces_the_value() {
    let mut values = Values::new();
    values.insert("a", Value::Int(1));
    values.insert("b", Value::Int(2));
    values.insert("a", Value::Boolean(false));
    assert_eq!(values.len(), 2);
    assert_eq!(values.get("a"), Some(Value::Boolean(false)));
    assert_eq!(values.get("b"), Some(Value::Int(2)));
}

#[test]
fn entries_hold_each_name_once() {
    let mut values = Values::new();
    values.insert("a", Value::Int(1));
    values.insert("b", Value::Int(2));
    values.insert("a", Value::Int(3));
    let mut entries: Vec<(String, Value)> = values.entries().clone();
    entries.sort_by(|x, y| x.0.cmp(&y.0));
    assert_eq!(entries, vec![("a".to_string(), Value::Int(3)), ("b".to_string(), Value::Int(2))]);
}

#[test]
fn values_are_equal_whatever_the_order_of_entry() {
    let mut first = Values::new();
    first.insert("a", Value::Int(1));
    first.insert("b", Value::Buffer(&[1, 2]));
    let mut second = Values::new();
    second.insert("b", Value::Buffer(&[1, 2]));
    second.insert("a", Value::Int(1));
    assert_eq!(first, second);
    second.insert("b", Value::Buffer(&[1, 3]));
    assert_ne!(first, second);
    second.insert("b", Value::Buffer(&[1, 2]));
    second.insert("c", Value::Boolean(true));
    assert_ne!(first, second);
    assert_ne!(second, first);
}

#[test]
fn values_of_different_kinds_differ() {
    assert_ne!(Value::Int(1), Value::Boolean(true));
    assert_ne!(Value::Int(0), Value::Buffer(&[]));
    assert_ne!(Value::Buffer(&[1]), Value::Buffer(&[1, 1]));
    assert_eq!(Value::Buffer(&[1, 2]), Value::Buffer(&[1, 2]));
    assert_eq!(Value::Int(-7), Value::Int(-7));
    assert_ne!(Value::Boolean(false), Value::Boolean(true));
}
