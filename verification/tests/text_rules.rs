//! Text helpers, decimal text and the order of names on chosen values.

use compress_json_rs::decimal::{check_float_text, i64_text, parse_whole, u64_text};
use compress_json_rs::number::reverse;
use compress_json_rs::order::{sorted_names, text_no_later};
use compress_json_rs::schema::schema_key;
use compress_json_rs::text::{chars_of, reverse_chars, split_text, string_of, tail_of};
use compress_json_rs::{trim_undefined, trim_undefined_recursively, Number, Object, Value};

fn chars(text: &str) -> Vec<char> {
    text.chars().collect()
}

fn list(values: &[&str]) -> Vec<String> {
    values.iter().map(|v| v.to_string()).collect()
}

fn s(x: &str) -> Value {
    Value::String(x.to_string())
}

fn map(entries: Vec<(&str, Value)>) -> Object {
    entries
        .into_iter()
        .map(|(k, v)| (k.to_string(), v))
        .collect()
}

#[test]
fn splitting_keeps_empty_pieces() {
    assert_eq!(split_text("a|b|c", '|'), list(&["a", "b", "c"]));
    assert_eq!(split_text("", '|'), list(&[""]));
    assert_eq!(split_text("abc", '|'), list(&["abc"]));
    assert_eq!(split_text("a|", '|'), list(&["a", ""]));
    assert_eq!(split_text("|a", '|'), list(&["", "a"]));
    assert_eq!(split_text("||", '|'), list(&["", "", ""]));
    assert_eq!(split_text("o|D||E|F", '|'), list(&["o", "D", "", "E", "F"]));
    assert_eq!(split_text("日|本", '|'), list(&["日", "本"]));
}

#[test]
fn characters_and_slices() {
    assert_eq!(chars_of("a日b"), vec!['a', '日', 'b']);
    assert_eq!(chars_of(""), Vec::<char>::new());
    assert_eq!(string_of(&chars("hello"), 1, 3), "el");
    assert_eq!(string_of(&chars("hello"), 2, 2), "");
    assert_eq!(string_of(&chars("hello"), 0, 5), "hello");
    assert_eq!(tail_of(&chars("hello"), 2), chars("llo"));
    assert_eq!(tail_of(&chars("hello"), 5), chars(""));
    assert_eq!(reverse_chars(&chars("abc")), "cba");
    assert_eq!(reverse("abc"), "cba");
    assert_eq!(reverse(""), "");
    assert_eq!(reverse("a日b"), "b日a");
}

#[test]
fn digits_of_whole_numbers() {
    assert_eq!(u64_text(0), "0");
    assert_eq!(u64_text(9), "9");
    assert_eq!(u64_text(10), "10");
    assert_eq!(u64_text(1234567890), "1234567890");
    assert_eq!(u64_text(u64::MAX), "18446744073709551615");
    assert_eq!(i64_text(0), "0");
    assert_eq!(i64_text(-1), "-1");
    assert_eq!(i64_text(i64::MAX), "9223372036854775807");
    assert_eq!(i64_text(i64::MIN), "-9223372036854775808");
}

#[test]
fn whole_numbers_within_range() {
    assert_eq!(parse_whole(&chars("0")), Some(Number::PosInt(0)));
    assert_eq!(parse_whole(&chars("+12")), Some(Number::PosInt(12)));
    assert_eq!(parse_whole(&chars("-12")), Some(Number::NegInt(-12)));
    assert_eq!(
        parse_whole(&chars("9223372036854775808")),
        Some(Number::PosInt(9223372036854775808))
    );
    assert_eq!(
        parse_whole(&chars("-9223372036854775807")),
        Some(Number::NegInt(-9223372036854775807))
    );
    assert_eq!(parse_whole(&chars("-9223372036854775809")), None);
    assert_eq!(parse_whole(&chars("18446744073709551616")), None);
    assert_eq!(parse_whole(&chars("99999999999999999999999")), None);
    assert_eq!(parse_whole(&chars("")), None);
    assert_eq!(parse_whole(&chars("-")), None);
    assert_eq!(parse_whole(&chars("1.0")), None);
    assert_eq!(parse_whole(&chars("1e3")), None);
    assert_eq!(parse_whole(&chars("12a")), None);
    assert_eq!(parse_whole(&chars("+-1")), None);
}

#[test]
fn the_grammar_of_numbers() {
    for text in [
        "0", "-0", "+1", "1.5", "1.", ".5", "-.5", "1e5", "1E5", "1e+5", "1e-5", "1.e5", ".5e5",
        "123.456e-789", "00.00",
    ] {
        assert!(check_float_text(&chars(text)), "{:?}", text);
    }
    for text in [
        "", "+", "-", ".", "e", "e5", ".e5", "1e", "1e+", "1e-", "1e5.", "1..2", "1.2.3", "1e5e5",
        "++1", "1+", " 1", "1 ", "1a", "a1", "inf", "nan", "1_000", "١",
    ] {
        assert!(!check_float_text(&chars(text)), "{:?}", text);
    }
}

#[test]
fn the_text_of_a_list_of_names() {
    assert_eq!(schema_key(&list(&[])), "");
    assert_eq!(schema_key(&list(&[""])), ",");
    assert_eq!(schema_key(&list(&["", ""])), ",,");
    assert_eq!(schema_key(&list(&["a", "b"])), "a,b,");
    assert_eq!(schema_key(&list(&["a,b"])), "a\\,b,");
    assert_eq!(schema_key(&list(&["a\\", "b"])), "a\\\\,b,");
    assert_eq!(schema_key(&list(&["a\\,b"])), "a\\\\\\,b,");
    assert_eq!(schema_key(&list(&[","])), "\\,,");
    assert_eq!(schema_key(&list(&["日,本", "x|y"])), "日\\,本,x|y,");
}

#[test]
fn dictionary_order() {
    assert!(text_no_later("", ""));
    assert!(text_no_later("", "a"));
    assert!(!text_no_later("a", ""));
    assert!(text_no_later("a", "a"));
    assert!(text_no_later("a", "b"));
    assert!(!text_no_later("b", "a"));
    assert!(text_no_later("a", "aa"));
    assert!(!text_no_later("aa", "a"));
    assert!(text_no_later("B", "a"));
    assert!(text_no_later("ab", "b"));
    assert!(text_no_later("z", "é"));
    assert!(!text_no_later("日", "a"));
}

#[test]
fn names_are_sorted_like_strings() {
    let names = list(&["b", "ab", "", "a", "B", "é", "aa", "a", "日", "10", "9"]);
    let mut expected = names.clone();
    expected.sort();
    assert_eq!(sorted_names(&names), expected);
    assert_eq!(sorted_names(&Vec::new()), Vec::<String>::new());
    assert_eq!(sorted_names(&list(&["x"])), list(&["x"]));
}

#[test]
fn trimming_keeps_the_order_of_what_is_left() {
    let mut object = map(vec![
        ("a", Value::Null),
        ("b", s("1")),
        ("c", Value::Null),
        ("d", s("2")),
        ("e", Value::Array(vec![Value::Null])),
        ("f", Value::Object(map(vec![("g", Value::Null)]))),
    ]);
    trim_undefined(&mut object);
    assert_eq!(
        object,
        map(vec![
            ("b", s("1")),
            ("d", s("2")),
            ("e", Value::Array(vec![Value::Null])),
            ("f", Value::Object(map(vec![("g", Value::Null)]))),
        ])
    );
}

#[test]
fn deep_trimming_enters_objects_only() {
    let mut object = map(vec![
        ("a", Value::Null),
        (
            "b",
            Value::Object(map(vec![
                ("c", Value::Null),
                ("d", Value::Object(map(vec![("e", Value::Null)]))),
                ("f", s("x")),
            ])),
        ),
        (
            "g",
            Value::Array(vec![
                Value::Null,
                Value::Object(map(vec![("h", Value::Null)])),
            ]),
        ),
    ]);
    trim_undefined_recursively(&mut object);
    assert_eq!(
        object,
        map(vec![
            (
                "b",
                Value::Object(map(vec![
                    ("d", Value::Object(map(vec![]))),
                    ("f", s("x")),
                ])),
            ),
            (
                "g",
                Value::Array(vec![
                    Value::Null,
                    Value::Object(map(vec![("h", Value::Null)])),
                ]),
            ),
        ])
    );
}
