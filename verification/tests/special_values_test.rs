//! Special floating-point values: Infinity, -Infinity and NaN.
//!
//! With the default options they become null; their special encoding
//! (`N|+`, `N|-`, `N|0`) is written only when the preserve options are set,
//! and is always understood when read.

use compress_json_rs::{
    compress, decode, decode_num, decode_special, decompress, encode_num, is_special_value,
    Number, Special, Value,
};

fn s(x: &str) -> Value {
    Value::String(x.to_string())
}

fn whole(i: i64) -> Value {
    if i >= 0 {
        Value::Number(Number::PosInt(i as u64))
    } else {
        Value::Number(Number::NegInt(i))
    }
}

fn number(x: f64) -> Number {
    decode_num(&x.to_string()).expect("a finite number")
}

fn fraction(x: f64) -> Value {
    Value::Number(number(x))
}

fn arr(items: Vec<Value>) -> Value {
    Value::Array(items)
}

fn obj(entries: Vec<(&str, Value)>) -> Value {
    Value::Object(
        entries
            .into_iter()
            .map(|(k, v)| (k.to_string(), v))
            .collect(),
    )
}

fn field<'a>(v: &'a Value, name: &str) -> &'a Value {
    match v {
        Value::Object(entries) => entries
            .iter()
            .find(|(k, _)| k == name)
            .map(|(_, v)| v)
            .expect("the property is there"),
        _ => panic!("not an object"),
    }
}

fn items(v: &Value) -> &Vec<Value> {
    match v {
        Value::Array(items) => items,
        _ => panic!("not an array"),
    }
}

fn is_null(v: &Value) -> bool {
    matches!(v, Value::Null)
}

fn special_to_f64(x: Special) -> f64 {
    match x {
        Special::NaN => f64::NAN,
        Special::Infinity => f64::INFINITY,
        Special::NegInfinity => f64::NEG_INFINITY,
    }
}

#[test]
fn test_special_value_decoding() {
    let values = vec!["N|+".to_string(), "N|-".to_string(), "N|0".to_string()];

    let decoded_inf = decode(&values, "0").unwrap();
    let decoded_neg_inf = decode(&values, "1").unwrap();
    let decoded_nan = decode(&values, "2").unwrap();

    assert!(is_null(&decoded_inf));
    assert!(is_null(&decoded_neg_inf));
    assert!(is_null(&decoded_nan));
}

#[test]
fn test_regular_numbers_still_work() {
    let data = obj(vec![
        ("integer", whole(42)),
        ("float", fraction(3.14159)),
        ("negative", whole(-100)),
        ("zero", whole(0)),
        ("large", whole(9007199254740991_i64)),
    ]);

    let compressed = compress(&data);
    let decompressed = decompress(compressed).unwrap();

    assert_eq!(data, decompressed);
}

#[test]
fn test_string_that_looks_like_special_value() {
    let data = obj(vec![
        ("fake_infinity", s("N|+")),
        ("fake_neg_infinity", s("N|-")),
        ("fake_nan", s("N|0")),
    ]);

    let compressed = compress(&data);
    let decompressed = decompress(compressed).unwrap();

    assert_eq!(data, decompressed);
    assert_eq!(*field(&decompressed, "fake_infinity"), s("N|+"));
    assert_eq!(*field(&decompressed, "fake_neg_infinity"), s("N|-"));
    assert_eq!(*field(&decompressed, "fake_nan"), s("N|0"));
}

#[test]
fn test_compressed_format_contains_special_encoding() {
    let values = vec![
        "N|+".to_string(),
        "N|-".to_string(),
        "N|0".to_string(),
        "n|42".to_string(),
        "a|0|1|2|3".to_string(),
    ];

    let decoded = decode(&values, "4").unwrap();

    assert!(matches!(decoded, Value::Array(_)));
    let arr = items(&decoded);
    assert_eq!(arr.len(), 4);

    assert!(is_null(&arr[0]));
    assert!(is_null(&arr[1]));
    assert!(is_null(&arr[2]));

    assert_eq!(arr[3], whole(42));
}

#[test]
fn test_decode_special_function() {
    let inf = special_to_f64(decode_special("N|+").unwrap());
    assert!(inf.is_infinite() && inf.is_sign_positive());

    let neg_inf = special_to_f64(decode_special("N|-").unwrap());
    assert!(neg_inf.is_infinite() && neg_inf.is_sign_negative());

    let nan = special_to_f64(decode_special("N|0").unwrap());
    assert!(nan.is_nan());
}

#[test]
fn test_is_special_value() {
    assert!(is_special_value("N|+"));
    assert!(is_special_value("N|-"));
    assert!(is_special_value("N|0"));

    assert!(!is_special_value("n|42"));
    assert!(!is_special_value("b|T"));
    assert!(!is_special_value("hello"));
}

#[test]
fn test_mixed_data_with_regular_values() {
    let data = obj(vec![
        (
            "users",
            arr(vec![
                obj(vec![
                    ("id", whole(1)),
                    ("name", s("Alice")),
                    ("score", fraction(95.5)),
                ]),
                obj(vec![
                    ("id", whole(2)),
                    ("name", s("Bob")),
                    ("score", fraction(88.1)),
                ]),
            ]),
        ),
        (
            "metadata",
            obj(vec![("count", whole(2)), ("average", fraction(91.75))]),
        ),
    ]);

    let compressed = compress(&data);
    let decompressed = decompress(compressed).unwrap();

    assert_eq!(data, decompressed);
}

#[test]
fn test_default_config_nullifies_special_values() {
    let values = vec!["n|42".to_string()];
    let decoded_null = decode(&values, "").unwrap();
    assert!(is_null(&decoded_null));

    let decoded_null2 = decode(&values, "_").unwrap();
    assert!(is_null(&decoded_null2));
}

#[test]
fn test_cross_platform_decoding_compatibility() {
    let values = vec![
        "N|+".to_string(),
        "N|-".to_string(),
        "N|0".to_string(),
        "n|42".to_string(),
        "hello".to_string(),
        "a|0|1|2|3|4".to_string(),
    ];

    let decoded = decode(&values, "5").unwrap();
    let arr = items(&decoded);

    assert!(is_null(&arr[0]), "Infinity should decode to null");
    assert!(is_null(&arr[1]), "-Infinity should decode to null");
    assert!(is_null(&arr[2]), "NaN should decode to null");
    assert_eq!(arr[3], whole(42), "Regular number should work");
    assert_eq!(arr[4], s("hello"), "String should work");
}

#[test]
fn test_encode_num_for_regular_numbers() {
    assert_eq!(encode_num(&number(42.0)), "n|42");
    assert_eq!(encode_num(&number(-3.14)), "n|-3.14");
    assert_eq!(encode_num(&number(0.0)), "n|0");
    assert_eq!(encode_num(&number(1e10)), "n|10000000000");
}
