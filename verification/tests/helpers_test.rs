//! Removal of null properties.

use compress_json_rs::{trim_undefined, trim_undefined_recursively, Number, Object, Value};

fn s(x: &str) -> Value {
    Value::String(x.to_string())
}

fn whole(i: i64) -> Value {
    if i >= 0 {
        Value::Number(Number::PosInt(i as u64))
    } else {
        Value::Number(Number::NegInt(i))
    }
}

fn arr(items: Vec<Value>) -> Value {
    Value::Array(items)
}

fn map(entries: Vec<(&str, Value)>) -> Object {
    entries
        .into_iter()
        .map(|(k, v)| (k.to_string(), v))
        .collect()
}

fn obj(entries: Vec<(&str, Value)>) -> Value {
    Value::Object(map(entries))
}

fn contains_key(object: &Object, name: &str) -> bool {
    object.iter().any(|(k, _)| k == name)
}

fn get<'a>(object: &'a Object, name: &str) -> Option<&'a Value> {
    object.iter().find(|(k, _)| k == name).map(|(_, v)| v)
}

fn as_object(v: &Value) -> Option<&Object> {
    match v {
        Value::Object(entries) => Some(entries),
        _ => None,
    }
}

#[test]
fn test_trim_undefined_removes_null_fields() {
    let mut user: Object = map(vec![
        ("name", s("Alice")),
        ("role", Value::Null),
        ("after_undefined", Value::Null),
        ("last", s("value")),
    ]);

    trim_undefined(&mut user);

    assert!(
        !contains_key(&user, "role"),
        "null field 'role' was not removed"
    );
    assert!(
        !contains_key(&user, "after_undefined"),
        "null field 'after_undefined' was not removed"
    );

    assert_eq!(get(&user, "name"), Some(&s("Alice")));
    assert_eq!(get(&user, "last"), Some(&s("value")));
}

#[test]
fn test_trim_undefined_preserves_non_null_values() {
    let mut data: Object = map(vec![
        ("str", s("hello")),
        ("num", whole(42)),
        ("bool", Value::Bool(true)),
        ("arr", arr(vec![whole(1), whole(2), whole(3)])),
        ("obj", obj(vec![("nested", s("value"))])),
    ]);

    let expected = data.clone();
    trim_undefined(&mut data);

    assert_eq!(data, expected, "Non-null values should be preserved");
}

#[test]
fn test_trim_undefined_empty_object() {
    let mut empty: Object = Vec::new();
    trim_undefined(&mut empty);
    assert!(empty.is_empty(), "Empty object should remain empty");
}

#[test]
fn test_trim_undefined_all_null() {
    let mut all_null: Object = map(vec![
        ("a", Value::Null),
        ("b", Value::Null),
        ("c", Value::Null),
    ]);

    trim_undefined(&mut all_null);
    assert!(all_null.is_empty(), "All null fields should be removed");
}

#[test]
fn test_trim_undefined_recursively_removes_nested_nulls() {
    let mut outer: Object = map(vec![
        ("name", s("outer")),
        ("extra", Value::Null),
        (
            "inner",
            obj(vec![
                ("name", s("inner")),
                ("nested_null", Value::Null),
                ("value", whole(42)),
            ]),
        ),
    ]);

    trim_undefined_recursively(&mut outer);

    assert!(
        !contains_key(&outer, "extra"),
        "Top-level null 'extra' was not removed"
    );

    let inner = get(&outer, "inner").expect("Inner object should exist");
    let inner_obj = as_object(inner).expect("Inner should be an object");

    assert!(
        !contains_key(inner_obj, "nested_null"),
        "Nested null field was not removed recursively"
    );

    assert_eq!(get(inner_obj, "name"), Some(&s("inner")));
    assert_eq!(get(inner_obj, "value"), Some(&whole(42)));
}

#[test]
fn test_trim_undefined_recursively_deeply_nested() {
    let mut data: Object = map(vec![
        (
            "level1",
            obj(vec![
                (
                    "level2",
                    obj(vec![
                        (
                            "level3",
                            obj(vec![("value", s("deep")), ("null_field", Value::Null)]),
                        ),
                        ("l2_null", Value::Null),
                    ]),
                ),
                ("l1_null", Value::Null),
            ]),
        ),
        ("top_null", Value::Null),
        ("preserved", s("top")),
    ]);

    trim_undefined_recursively(&mut data);

    assert!(!contains_key(&data, "top_null"));
    assert_eq!(get(&data, "preserved"), Some(&s("top")));

    let level1 = as_object(get(&data, "level1").unwrap()).unwrap();
    assert!(!contains_key(level1, "l1_null"));

    let level2 = as_object(get(level1, "level2").unwrap()).unwrap();
    assert!(!contains_key(level2, "l2_null"));

    let level3 = as_object(get(level2, "level3").unwrap()).unwrap();
    assert!(!contains_key(level3, "null_field"));
    assert_eq!(get(level3, "value"), Some(&s("deep")));
}

#[test]
fn test_trim_undefined_recursively_with_arrays() {
    let mut data: Object = map(vec![
        ("arr", arr(vec![whole(1), Value::Null, whole(3)])),
        (
            "nested",
            obj(vec![
                ("arr2", arr(vec![Value::Null, s("value")])),
                ("remove_me", Value::Null),
            ]),
        ),
    ]);

    trim_undefined_recursively(&mut data);

    let arr1 = get(&data, "arr").unwrap();
    assert_eq!(arr1, &arr(vec![whole(1), Value::Null, whole(3)]));

    let nested = as_object(get(&data, "nested").unwrap()).unwrap();
    assert!(!contains_key(nested, "remove_me"));
    assert_eq!(
        get(nested, "arr2"),
        Some(&arr(vec![Value::Null, s("value")]))
    );
}

#[test]
fn test_trim_undefined_recursively_preserves_structure() {
    let mut a: Object = map(vec![
        ("name", s("a")),
        ("ref", s("b_ref")),
        ("extra", Value::Null),
    ]);

    let mut b: Object = map(vec![
        ("name", s("b")),
        (
            "a",
            obj(vec![
                ("name", s("a")),
                ("ref", s("b_ref")),
                ("extra", Value::Null),
            ]),
        ),
    ]);

    trim_undefined_recursively(&mut a);
    trim_undefined_recursively(&mut b);

    assert_eq!(get(&a, "name"), Some(&s("a")));
    assert_eq!(get(&a, "ref"), Some(&s("b_ref")));
    assert!(!contains_key(&a, "extra"));

    assert_eq!(get(&b, "name"), Some(&s("b")));
    let b_a = as_object(get(&b, "a").unwrap()).unwrap();
    assert_eq!(get(b_a, "name"), Some(&s("a")));
    assert!(!contains_key(b_a, "extra"));
}
