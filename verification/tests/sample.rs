//! Sample data for the tests of the codec.

use compress_json_rs::{decode_num, Number, Value};

fn s(x: &str) -> Value {
    Value::String(x.to_string())
}

fn whole(i: i64) -> Value {
    if i >= 0 {
        Value::Number(Number::PosInt(i as u64))
    } else {
        Value::Number(Number::NegInt(i))
    }
}

fn fraction(x: f64) -> Value {
    Value::Number(decode_num(&x.to_string()).expect("a finite number"))
}

fn arr(items: Vec<Value>) -> Value {
    Value::Array(items)
}

fn obj(entries: Vec<(&str, Value)>) -> Value {
    Value::Object(
        entries
            .into_iter()
            .map(|(k, v)| (k.to_string(), v))
            .collect(),
    )
}

/// Sample names for generating test data
const SAMPLE_NAMES: &[&str] = &[
    "Alice", "Bob", "Charlie", "Diana", "Eve", "Frank", "Grace", "Henry", "Ivy", "Jack",
];

/// Sample data with repeated values, sparse arrays and extreme numbers.
pub fn sample() -> Value {
    let long_str = "A very very long string, that is repeated";
    let long_num = 9876543210.123456_f64;

    let mut sparse: Vec<Value> = vec![Value::Null; 11];
    sparse[10] = whole(1);

    let collection: Vec<Value> = (0..10usize)
        .map(|i| {
            obj(vec![
                ("user_id", whole(i as i64 + 1)),
                ("name", s(SAMPLE_NAMES[i % SAMPLE_NAMES.len()])),
                ("region", s("HK")),
                ("role", s("user")),
                ("more", s("fields")),
            ])
        })
        .collect();

    obj(vec![
        (
            "floating",
            arr(vec![
                fraction(0.12371134020618557),
                fraction(0.032989690721649485),
                fraction(0.18144329896907216),
                fraction(2.1651785714285716),
            ]),
        ),
        (
            "rich",
            obj(vec![
                ("int", whole(42)),
                ("float", fraction(12.34)),
                ("str", s("Alice")),
                ("longStr", s(long_str)),
                ("longNum", fraction(long_num)),
                ("bool", Value::Bool(true)),
                ("bool2", Value::Bool(false)),
                ("arr", arr(vec![whole(42), s(long_str)])),
                ("arr2", arr(vec![whole(42), s(long_str)])),
                (
                    "obj",
                    obj(vec![
                        ("id", whole(123)),
                        ("name", s("Alice")),
                        ("role", arr(vec![s("Admin"), s("User"), s("Guest")])),
                        ("longStr", s(long_str)),
                        ("longNum", fraction(long_num)),
                    ]),
                ),
                (
                    "escape",
                    arr(vec![
                        s("s|str"),
                        s("n|123"),
                        s("o|1"),
                        s("a|1"),
                        s("b|T"),
                        s("b|F"),
                        s("...s|..."),
                    ]),
                ),
            ]),
        ),
        ("conflict", obj(vec![("str", s("1")), ("num", whole(1))])),
        ("sparse", Value::Array(sparse)),
        (
            "same_array",
            obj(vec![
                (
                    "arr_1",
                    arr(vec![whole(1), whole(2), whole(3), whole(4), whole(5)]),
                ),
                (
                    "arr_2",
                    arr(vec![whole(1), whole(2), whole(3), whole(4), whole(5)]),
                ),
            ]),
        ),
        ("collection", Value::Array(collection)),
        (
            "exponential",
            arr(vec![
                fraction(1.23456789123789e22),
                fraction(1.23456789123789e-22),
                fraction(-1.23456789123789e22),
                fraction(-1.23456789123789e-22),
            ]),
        ),
    ])
}

/// Get a specific sample section by name
pub fn get_sample(name: &str) -> Value {
    match sample() {
        Value::Object(entries) => entries
            .into_iter()
            .find(|(k, _)| k == name)
            .map(|(_, v)| v)
            .unwrap_or(Value::Null),
        _ => Value::Null,
    }
}

fn contains_key(v: &Value, name: &str) -> bool {
    match v {
        Value::Object(entries) => entries.iter().any(|(k, _)| k == name),
        _ => false,
    }
}

fn items(v: &Value) -> &Vec<Value> {
    match v {
        Value::Array(items) => items,
        _ => panic!("not an array"),
    }
}

#[test]
fn test_sample_structure() {
    let data = sample();
    assert!(matches!(data, Value::Object(_)));

    assert!(contains_key(&data, "floating"));
    assert!(contains_key(&data, "rich"));
    assert!(contains_key(&data, "conflict"));
    assert!(contains_key(&data, "sparse"));
    assert!(contains_key(&data, "same_array"));
    assert!(contains_key(&data, "collection"));
    assert!(contains_key(&data, "exponential"));
}

#[test]
fn test_sparse_array() {
    let sparse = get_sample("sparse");
    let arr = items(&sparse);
    assert_eq!(arr.len(), 11);
    assert!(matches!(arr[0], Value::Null));
    assert_eq!(arr[10], whole(1));
}

#[test]
fn test_collection_size() {
    let collection = get_sample("collection");
    let arr = items(&collection);
    assert_eq!(arr.len(), 10);
}
