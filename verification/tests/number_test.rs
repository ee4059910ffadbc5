//! Numbers through compression and back.

use compress_json_rs::{compress, decode_num, decompress, Number, Value};

fn whole(i: i64) -> Value {
    if i >= 0 {
        Value::Number(Number::PosInt(i as u64))
    } else {
        Value::Number(Number::NegInt(i))
    }
}

fn fraction(x: f64) -> Value {
    Value::Number(decode_num(&x.to_string()).expect("a finite number"))
}

fn as_f64(v: &Value) -> Option<f64> {
    match v {
        Value::Number(Number::PosInt(u)) => Some(*u as f64),
        Value::Number(Number::NegInt(i)) => Some(*i as f64),
        Value::Number(Number::Float(t)) => t.parse::<f64>().ok(),
        _ => None,
    }
}

fn is_whole(v: &Value) -> bool {
    matches!(
        v,
        Value::Number(Number::PosInt(_)) | Value::Number(Number::NegInt(_))
    )
}

/// A number comes back as the same number.
fn test_number_roundtrip(x: f64) {
    let value = fraction(x);
    let compressed = compress(&value);
    let decompressed = decompress(compressed).unwrap();

    let result = as_f64(&decompressed).expect("Expected a number");
    assert_eq!(x, result, "Number roundtrip failed for {}", x);
}

#[test]
fn test_large_integer() {
    test_number_roundtrip(1234567890.0);
}

#[test]
fn test_large_integer_2() {
    test_number_roundtrip(987654321.0);
}

#[test]
fn test_decimal_number() {
    test_number_roundtrip(1234.4321);
}

#[test]
fn test_negative_number() {
    test_number_roundtrip(-5.0);
}

#[test]
fn test_precision_bug() {
    test_number_roundtrip(0.12371134020618557);
}

#[test]
fn test_exponential_large() {
    test_number_roundtrip(1.23456789123789e22);
}

#[test]
fn test_exponential_small_e9() {
    test_number_roundtrip(1.2e-9);
}

#[test]
fn test_exponential_small_e10() {
    test_number_roundtrip(1.2e-10);
}

#[test]
fn test_exponential_e21() {
    test_number_roundtrip(1e21);
}

#[test]
fn test_exponential_e_minus_13() {
    test_number_roundtrip(2e-13);
}

#[test]
fn test_overflow_division() {
    test_number_roundtrip(1.0 / 12.0);
}

#[test]
fn test_integer_preservation() {
    let value = whole(42);
    let compressed = compress(&value);
    let decompressed = decompress(compressed).unwrap();

    assert!(
        is_whole(&decompressed),
        "Expected integer, got {:?}",
        decompressed
    );
    assert_eq!(value, decompressed);
}

#[test]
fn test_negative_integer() {
    let value = whole(-42);
    let compressed = compress(&value);
    let decompressed = decompress(compressed).unwrap();
    assert_eq!(value, decompressed);
}

#[test]
fn test_zero() {
    let value = whole(0);
    let compressed = compress(&value);
    let decompressed = decompress(compressed).unwrap();
    assert_eq!(value, decompressed);
}

#[test]
fn test_max_safe_integer() {
    let value = whole(9007199254740991_i64);
    let compressed = compress(&value);
    let decompressed = decompress(compressed).unwrap();
    assert_eq!(value, decompressed);
}

#[test]
fn test_min_safe_integer() {
    let value = whole(-9007199254740991_i64);
    let compressed = compress(&value);
    let decompressed = decompress(compressed).unwrap();
    assert_eq!(value, decompressed);
}

#[test]
fn test_all_numbers_comprehensive() {
    let numbers = vec![
        1234567890.0,
        987654321.0,
        1234.4321,
        -5.0,
        0.12371134020618557,
        1.23456789123789e22,
        1.2e-9,
        1.2e-10,
        1e21,
        2e-13,
        1.0 / 12.0,
    ];

    for x in numbers {
        test_number_roundtrip(x);
    }
}
