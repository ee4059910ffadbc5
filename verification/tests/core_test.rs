//! Compression and decompression of whole trees.

use compress_json_rs::{compress, decode_num, decompress, Number, Value};

fn s(x: &str) -> Value {
    Value::String(x.to_string())
}

fn whole(i: i64) -> Value {
    if i >= 0 {
        Value::Number(Number::PosInt(i as u64))
    } else {
        Value::Number(Number::NegInt(i))
    }
}

fn fraction(x: f64) -> Value {
    Value::Number(decode_num(&x.to_string()).expect("a finite number"))
}

fn arr(items: Vec<Value>) -> Value {
    Value::Array(items)
}

fn obj(entries: Vec<(&str, Value)>) -> Value {
    Value::Object(
        entries
            .into_iter()
            .map(|(k, v)| (k.to_string(), v))
            .collect(),
    )
}

/// Sample names for generating test data
const SAMPLE_NAMES: &[&str] = &[
    "Alice", "Bob", "Charlie", "Diana", "Eve", "Frank", "Grace", "Henry", "Ivy", "Jack",
];

/// Sample data with repeated values, sparse arrays and extreme numbers.
pub fn sample() -> Value {
    let long_str = "A very very long string, that is repeated";
    let long_num = 9876543210.123456_f64;

    let mut sparse: Vec<Value> = vec![Value::Null; 11];
    sparse[10] = whole(1);

    let collection: Vec<Value> = (0..10usize)
        .map(|i| {
            obj(vec![
                ("user_id", whole(i as i64 + 1)),
                ("name", s(SAMPLE_NAMES[i % SAMPLE_NAMES.len()])),
                ("region", s("HK")),
                ("role", s("user")),
                ("more", s("fields")),
            ])
        })
        .collect();

    obj(vec![
        (
            "floating",
            arr(vec![
                fraction(0.12371134020618557),
                fraction(0.032989690721649485),
                fraction(0.18144329896907216),
                fraction(2.1651785714285716),
            ]),
        ),
        (
            "rich",
            obj(vec![
                ("int", whole(42)),
                ("float", fraction(12.34)),
                ("str", s("Alice")),
                ("longStr", s(long_str)),
                ("longNum", fraction(long_num)),
                ("bool", Value::Bool(true)),
                ("bool2", Value::Bool(false)),
                ("arr", arr(vec![whole(42), s(long_str)])),
                ("arr2", arr(vec![whole(42), s(long_str)])),
                (
                    "obj",
                    obj(vec![
                        ("id", whole(123)),
                        ("name", s("Alice")),
                        ("role", arr(vec![s("Admin"), s("User"), s("Guest")])),
                        ("longStr", s(long_str)),
                        ("longNum", fraction(long_num)),
                    ]),
                ),
                (
                    "escape",
                    arr(vec![
                        s("s|str"),
                        s("n|123"),
                        s("o|1"),
                        s("a|1"),
                        s("b|T"),
                        s("b|F"),
                        s("...s|..."),
                    ]),
                ),
            ]),
        ),
        ("conflict", obj(vec![("str", s("1")), ("num", whole(1))])),
        ("sparse", Value::Array(sparse)),
        (
            "same_array",
            obj(vec![
                (
                    "arr_1",
                    arr(vec![whole(1), whole(2), whole(3), whole(4), whole(5)]),
                ),
                (
                    "arr_2",
                    arr(vec![whole(1), whole(2), whole(3), whole(4), whole(5)]),
                ),
            ]),
        ),
        ("collection", Value::Array(collection)),
        (
            "exponential",
            arr(vec![
                fraction(1.23456789123789e22),
                fraction(1.23456789123789e-22),
                fraction(-1.23456789123789e22),
                fraction(-1.23456789123789e-22),
            ]),
        ),
    ])
}

/// Get a specific sample section by name
pub fn get_sample(name: &str) -> Value {
    match sample() {
        Value::Object(entries) => entries
            .into_iter()
            .find(|(k, _)| k == name)
            .map(|(_, v)| v)
            .unwrap_or(Value::Null),
        _ => Value::Null,
    }
}

/// Compresses, decompresses and compares with the input.
fn test_roundtrip(name: &str, data: Value) {
    test_roundtrip_with_expected(name, data.clone(), data);
}

/// Compresses, decompresses and compares with what is expected.
fn test_roundtrip_with_expected(name: &str, data: Value, expected: Value) {
    let compressed = compress(&data);
    let decompressed = decompress(compressed).unwrap();

    assert_eq!(
        expected, decompressed,
        "Roundtrip failed for '{}'\nInput: {:?}\nExpected: {:?}\nGot: {:?}",
        name, data, expected, decompressed
    );
}

#[test]
fn test_floating() {
    let data = get_sample("floating");
    test_roundtrip("floating", data);
}

#[test]
fn test_rich() {
    let data = get_sample("rich");
    test_roundtrip("rich", data);
}

#[test]
fn test_conflict() {
    let data = get_sample("conflict");
    test_roundtrip("conflict", data);
}

#[test]
fn test_sparse() {
    let data = get_sample("sparse");
    test_roundtrip("sparse", data);
}

#[test]
fn test_same_array() {
    let data = get_sample("same_array");
    test_roundtrip("same_array", data);
}

#[test]
fn test_collection() {
    let data = get_sample("collection");
    test_roundtrip("collection", data);
}

#[test]
fn test_exponential() {
    let data = get_sample("exponential");
    test_roundtrip("exponential", data);
}

#[test]
fn test_empty_object() {
    test_roundtrip("empty object", obj(vec![]));
}

#[test]
fn test_object_with_one_key() {
    test_roundtrip("object with one key", obj(vec![("Name", s("Triangle-01"))]));
}

#[test]
fn test_nested_object_with_one_key() {
    test_roundtrip(
        "nested object with one key",
        obj(vec![("Triangles", obj(vec![("Name", s("Triangle-01"))]))]),
    );
}

#[test]
fn test_nested_object_with_same_key() {
    test_roundtrip(
        "nested object with same key",
        obj(vec![(
            "Triangles",
            obj(vec![("Triangles", obj(vec![("Name", s("Triangle-01"))]))]),
        )]),
    );
}

#[test]
fn test_nested_object_and_array_with_same_key() {
    test_roundtrip(
        "nested object and array with same key",
        obj(vec![(
            "Triangles",
            obj(vec![(
                "Triangles",
                arr(vec![obj(vec![("Name", s("Triangle-01"))])]),
            )]),
        )]),
    );
}

#[test]
fn test_single_key_object_using_existing_value_as_key() {
    test_roundtrip(
        "Single-key object using existing value as key",
        obj(vec![
            ("Name", s("Start")),
            ("Triangles", obj(vec![("Name", s("Triangle-01"))])),
        ]),
    );
}

#[test]
fn test_array_using_existing_values_used_by_object_key() {
    test_roundtrip(
        "Array using existing values used by object key",
        obj(vec![
            ("obj", obj(vec![("id", whole(1)), ("name", s("arr"))])),
            ("str", s("id,name")),
        ]),
    );
}

#[test]
fn test_object_prototype_conflicts() {
    test_roundtrip(
        "Handle name conflict with Object.prototype",
        obj(vec![
            ("toString", whole(1)),
            ("valueOf", whole(2)),
            ("hasOwnProperty", whole(3)),
            ("constructor", whole(4)),
            ("isPrototypeOf", whole(5)),
            ("propertyIsEnumerable", whole(6)),
        ]),
    );
}

#[test]
fn test_string_as_key_and_value() {
    test_roundtrip(
        "A string appears as both key and value",
        obj(vec![
            ("any-1", obj(vec![("key-and-value", s("any-3"))])),
            ("any-2", s("key-and-value")),
        ]),
    );
}

#[test]
fn test_empty_array() {
    test_roundtrip("empty array", arr(vec![]));
}

#[test]
fn test_array_with_null_element() {
    let data = arr(vec![Value::Null]);
    let compressed = compress(&data);
    let decompressed = decompress(compressed).unwrap();

    let items = match &decompressed {
        Value::Array(items) => items,
        _ => panic!("Expected array"),
    };
    assert_eq!(items.len(), 1);
    assert!(
        matches!(items[0], Value::Null),
        "Expected null, got {:?}",
        items[0]
    );
}

#[test]
fn test_array_with_multiple_null_elements() {
    test_roundtrip(
        "array with multiple null elements",
        arr(vec![Value::Null, Value::Null]),
    );
}

#[test]
fn test_invalid_numbers_become_null() {
    test_roundtrip(
        "array with nulls for invalid numbers",
        arr(vec![Value::Null, Value::Null, Value::Null]),
    );
}

#[test]
fn test_deeply_nested_structure() {
    test_roundtrip(
        "deeply nested structure",
        obj(vec![(
            "a",
            obj(vec![(
                "b",
                obj(vec![(
                    "c",
                    obj(vec![("d", obj(vec![("e", s("deep value"))]))]),
                )]),
            )]),
        )]),
    );
}

#[test]
fn test_mixed_array_types() {
    test_roundtrip(
        "mixed array types",
        arr(vec![
            whole(1),
            s("string"),
            Value::Bool(true),
            Value::Bool(false),
            Value::Null,
            obj(vec![("key", s("value"))]),
            arr(vec![whole(1), whole(2), whole(3)]),
        ]),
    );
}

#[test]
fn test_unicode_strings() {
    test_roundtrip(
        "unicode strings",
        obj(vec![
            ("emoji", s("🎉🚀💻")),
            ("chinese", s("中文测试")),
            ("japanese", s("日本語テスト")),
            ("arabic", s("اختبار العربية")),
        ]),
    );
}

#[test]
fn test_special_characters_in_strings() {
    test_roundtrip(
        "special characters in strings",
        obj(vec![
            ("newline", s("line1\nline2")),
            ("tab", s("col1\tcol2")),
            ("quote", s("say \"hello\"")),
            ("backslash", s("path\\to\\file")),
        ]),
    );
}

fn item(kind: &str, name: &str, color: &str) -> Value {
    obj(vec![("type", s(kind)), ("name", s(name)), ("color", s(color))])
}

#[test]
fn test_duplicate_values_compression() {
    let data = obj(vec![(
        "items",
        arr(vec![
            item("fruit", "apple", "red"),
            item("fruit", "banana", "yellow"),
            item("fruit", "cherry", "red"),
            item("vegetable", "carrot", "orange"),
            item("fruit", "grape", "purple"),
        ]),
    )]);

    let compressed = compress(&data);
    let decompressed = decompress(compressed).unwrap();

    assert_eq!(data, decompressed);
}

#[test]
fn test_large_integers() {
    test_roundtrip(
        "large integers",
        obj(vec![
            ("small", whole(1)),
            ("medium", whole(1000000)),
            ("large", whole(9007199254740991_i64)),
            ("negative_large", whole(-9007199254740991_i64)),
        ]),
    );
}

#[test]
fn test_boolean_values() {
    test_roundtrip(
        "boolean values",
        obj(vec![
            ("true_val", Value::Bool(true)),
            ("false_val", Value::Bool(false)),
            (
                "arr",
                arr(vec![Value::Bool(true), Value::Bool(false), Value::Bool(true)]),
            ),
        ]),
    );
}

#[test]
fn test_null_values_in_objects() {
    test_roundtrip(
        "null values in objects",
        obj(vec![
            ("present", s("value")),
            ("absent", Value::Null),
            (
                "nested",
                obj(vec![("inner_present", whole(42)), ("inner_null", Value::Null)]),
            ),
        ]),
    );
}

#[test]
fn test_escaped_prefix_strings() {
    test_roundtrip(
        "escaped prefix strings",
        obj(vec![
            ("looks_like_string", s("s|actual content")),
            ("looks_like_number", s("n|not a number")),
            ("looks_like_object", s("o|not an object")),
            ("looks_like_array", s("a|not an array")),
            ("looks_like_bool", s("b|not a bool")),
        ]),
    );
}

#[test]
fn test_repeated_keys_in_arrays_of_objects() {
    test_roundtrip(
        "repeated keys in arrays of objects",
        arr(vec![
            obj(vec![("id", whole(1)), ("name", s("first"))]),
            obj(vec![("id", whole(2)), ("name", s("second"))]),
            obj(vec![("id", whole(3)), ("name", s("third"))]),
        ]),
    );
}

fn user(id: &str, first: &str, last: &str, email: &str, theme: &str, notify: bool) -> Value {
    obj(vec![
        ("id", s(id)),
        (
            "profile",
            obj(vec![
                ("firstName", s(first)),
                ("lastName", s(last)),
                ("email", s(email)),
            ]),
        ),
        (
            "settings",
            obj(vec![
                ("theme", s(theme)),
                ("notifications", Value::Bool(notify)),
                ("language", s("en")),
            ]),
        ),
        ("active", Value::Bool(true)),
    ])
}

#[test]
fn test_complex_real_world_like_data() {
    test_roundtrip(
        "complex real-world-like data",
        obj(vec![
            (
                "users",
                arr(vec![
                    user("user-001", "John", "Doe", "john@example.com", "dark", true),
                    user("user-002", "Jane", "Smith", "jane@example.com", "light", false),
                ]),
            ),
            (
                "metadata",
                obj(vec![
                    ("version", s("1.0.0")),
                    ("timestamp", s("2024-01-15T10:30:00Z")),
                ]),
            ),
        ]),
    );
}

#[test]
fn test_string_root() {
    test_roundtrip("string at root", s("hello world"));
}

#[test]
fn test_number_root() {
    test_roundtrip("number at root", fraction(42.5));
}

#[test]
fn test_boolean_true_root() {
    test_roundtrip("true at root", Value::Bool(true));
}

#[test]
fn test_boolean_false_root() {
    test_roundtrip("false at root", Value::Bool(false));
}

#[test]
fn test_null_root() {
    test_roundtrip("null at root", Value::Null);
}

#[test]
fn test_array_root() {
    test_roundtrip("array at root", arr(vec![whole(1), whole(2), whole(3)]));
}
