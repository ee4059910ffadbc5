//! The rules of the codec on chosen values: keys, tags, numbers, errors,
//! sharing, and the exact value lists of small trees.

use compress_json_rs::{
    add_value, bool_to_s, compress, compress_with, decode, decode_bool, decode_key, decode_num,
    decode_special, decode_str, decompress, encode_bool, encode_num, encode_special, encode_str,
    get_schema, get_value_key, int_to_s, is_special_value, make_memory, make_memory_with,
    mem_to_values, s_to_bool, s_to_int, set_field, Config, Error, Number, Object, Special,
    Value,
};

fn s(x: &str) -> Value {
    Value::String(x.to_string())
}

fn whole(i: i64) -> Value {
    if i >= 0 {
        Value::Number(Number::PosInt(i as u64))
    } else {
        Value::Number(Number::NegInt(i))
    }
}

fn arr(items: Vec<Value>) -> Value {
    Value::Array(items)
}

fn obj(entries: Vec<(&str, Value)>) -> Value {
    Value::Object(
        entries
            .into_iter()
            .map(|(k, v)| (k.to_string(), v))
            .collect(),
    )
}

fn list(values: &[&str]) -> Vec<String> {
    values.iter().map(|v| v.to_string()).collect()
}

fn special(x: Special) -> Value {
    Value::Number(Number::Special(x))
}

fn options() -> Config {
    Config::default()
}

#[test]
fn key_codec_is_a_bijection_below_100000() {
    for i in 0..100000usize {
        assert_eq!(s_to_int(&int_to_s(i)), Ok(i));
    }
}

#[test]
fn key_codec_fixed_points() {
    assert_eq!(int_to_s(0), "0");
    assert_eq!(int_to_s(9), "9");
    assert_eq!(int_to_s(10), "A");
    assert_eq!(int_to_s(35), "Z");
    assert_eq!(int_to_s(36), "a");
    assert_eq!(int_to_s(61), "z");
    assert_eq!(int_to_s(62), "10");
    assert_eq!(int_to_s(3843), "zz");
    assert_eq!(int_to_s(3844), "100");
    assert_eq!(int_to_s(238327), "zzz");
}

#[test]
fn key_codec_reads_most_significant_digit_first() {
    assert_eq!(s_to_int("0"), Ok(0));
    assert_eq!(s_to_int("A"), Ok(10));
    assert_eq!(s_to_int("a"), Ok(36));
    assert_eq!(s_to_int("10"), Ok(62));
    assert_eq!(s_to_int("1z"), Ok(123));
    assert_eq!(s_to_int("z1"), Ok(61 * 62 + 1));
    assert_eq!(s_to_int("007"), Ok(7));
    assert_eq!(s_to_int(""), Ok(0));
    assert_eq!(decode_key("q"), Ok(52));
}

#[test]
fn key_codec_rejects_other_characters() {
    assert_eq!(s_to_int("a-b"), Err(Error::InvalidKey));
    assert_eq!(s_to_int("_"), Err(Error::InvalidKey));
    assert_eq!(s_to_int("1|2"), Err(Error::InvalidKey));
    assert_eq!(s_to_int("é"), Err(Error::InvalidKey));
    assert_eq!(decode_key(" 1"), Err(Error::InvalidKey));
}

#[test]
fn key_codec_rejects_keys_beyond_every_list() {
    assert_eq!(
        s_to_int("zzzzzzzzzzzzzzzzzzzzzzzz"),
        Err(Error::IndexOutOfRange)
    );
    assert_eq!(
        s_to_int("zzzzzzzzzzzzzzzzzzzzzzz!"),
        Err(Error::InvalidKey)
    );
}

#[test]
fn booleans_as_letters() {
    assert_eq!(bool_to_s(true), "T");
    assert_eq!(bool_to_s(false), "F");
    assert!(s_to_bool("T"));
    assert!(!s_to_bool("F"));
    assert!(!s_to_bool(""));
    assert!(s_to_bool("x"));
    assert!(s_to_bool("FF"));
}

#[test]
fn booleans_encoded() {
    assert_eq!(encode_bool(true), "b|T");
    assert_eq!(encode_bool(false), "b|F");
    assert!(decode_bool("b|T"));
    assert!(!decode_bool("b|F"));
    assert!(!decode_bool(""));
    assert!(decode_bool("b|x"));
    assert!(decode_bool("F"));
    assert!(decode_bool("anything"));
}

#[test]
fn strings_are_escaped_where_they_look_like_a_tag() {
    assert_eq!(encode_str("n|123"), "s|n|123");
    assert_eq!(encode_str("b|T"), "s|b|T");
    assert_eq!(encode_str("o|"), "s|o|");
    assert_eq!(encode_str("a|1"), "s|a|1");
    assert_eq!(encode_str("N|+"), "s|N|+");
    assert_eq!(encode_str("s|x"), "s|s|x");
    assert_eq!(encode_str("hello"), "hello");
    assert_eq!(encode_str(""), "");
    assert_eq!(encode_str("n"), "n");
    assert_eq!(encode_str("|n"), "|n");
    assert_eq!(encode_str("x|1"), "x|1");
    assert_eq!(encode_str("é|1"), "é|1");
    assert_eq!(encode_str("...s|..."), "...s|...");
}

#[test]
fn unescaping_is_single_level() {
    assert_eq!(decode_str("s|n|123"), "n|123");
    assert_eq!(decode_str("s|s|x"), "s|x");
    assert_eq!(decode_str("s|"), "");
    assert_eq!(decode_str("hello"), "hello");
    assert_eq!(decode_str(""), "");
    assert_eq!(decode_str("s"), "s");
}

#[test]
fn strings_survive_escaping() {
    let samples = [
        "", "a", "s|", "s|s|", "s|s|s|x", "n|1", "N|0", "b|", "o|x", "a|", "|", "||", "日本|語",
        "🎉|", "s|🎉",
    ];
    for text in samples {
        assert_eq!(decode_str(&encode_str(text)), text);
    }
}

#[test]
fn whole_numbers_are_written_with_their_digits() {
    assert_eq!(encode_num(&Number::PosInt(0)), "n|0");
    assert_eq!(encode_num(&Number::PosInt(7)), "n|7");
    assert_eq!(encode_num(&Number::PosInt(1000000)), "n|1000000");
    assert_eq!(
        encode_num(&Number::PosInt(u64::MAX)),
        "n|18446744073709551615"
    );
    assert_eq!(encode_num(&Number::NegInt(-42)), "n|-42");
    assert_eq!(
        encode_num(&Number::NegInt(i64::MIN)),
        "n|-9223372036854775808"
    );
    assert_eq!(encode_num(&Number::NegInt(5)), "n|5");
    assert_eq!(encode_num(&Number::Float("1.5e-7".to_string())), "n|1.5e-7");
}

#[test]
fn special_numbers_are_written_in_their_special_form() {
    assert_eq!(encode_num(&Number::Special(Special::Infinity)), "N|+");
    assert_eq!(encode_num(&Number::Special(Special::NegInfinity)), "N|-");
    assert_eq!(encode_num(&Number::Special(Special::NaN)), "N|0");
    assert_eq!(encode_special(Special::Infinity), "N|+");
    assert_eq!(encode_special(Special::NegInfinity), "N|-");
    assert_eq!(encode_special(Special::NaN), "N|0");
}

#[test]
fn whole_numbers_are_read_as_whole_numbers() {
    assert_eq!(decode_num("n|42"), Ok(Number::PosInt(42)));
    assert_eq!(decode_num("42"), Ok(Number::PosInt(42)));
    assert_eq!(decode_num("n|+5"), Ok(Number::PosInt(5)));
    assert_eq!(decode_num("n|-7"), Ok(Number::NegInt(-7)));
    assert_eq!(decode_num("n|-0"), Ok(Number::PosInt(0)));
    assert_eq!(decode_num("n|007"), Ok(Number::PosInt(7)));
    assert_eq!(
        decode_num("n|18446744073709551615"),
        Ok(Number::PosInt(u64::MAX))
    );
    assert_eq!(
        decode_num("n|-9223372036854775808"),
        Ok(Number::NegInt(i64::MIN))
    );
}

#[test]
fn other_numbers_keep_their_text() {
    let float = |t: &str| Ok(Number::Float(t.to_string()));
    assert_eq!(decode_num("n|1.5"), float("1.5"));
    assert_eq!(decode_num("n|-3.14"), float("-3.14"));
    assert_eq!(decode_num("n|1e5"), float("1e5"));
    assert_eq!(decode_num("n|1E5"), float("1E5"));
    assert_eq!(decode_num("n|1.2e-9"), float("1.2e-9"));
    assert_eq!(decode_num("n|1.e+3"), float("1.e+3"));
    assert_eq!(decode_num("n|.5"), float(".5"));
    assert_eq!(decode_num("n|5."), float("5."));
    assert_eq!(decode_num("n|+.5e-1"), float("+.5e-1"));
    assert_eq!(
        decode_num("n|18446744073709551616"),
        float("18446744073709551616")
    );
    assert_eq!(
        decode_num("n|-9223372036854775809"),
        float("-9223372036854775809")
    );
    assert_eq!(
        decode_num("n|1000000000000000000000"),
        float("1000000000000000000000")
    );
}

#[test]
fn what_is_no_number_is_rejected() {
    for text in [
        "n|", "", "n|abc", "n|.", "n|-", "n|+", "n|1e", "n|1e+", "n|e5", "n|.e5", "n|1.2.3",
        "n|1e5.0", "n|--1", "n|1 ", "n| 1", "n|inf", "n|NaN", "n|infinity", "n|0x10", "n|1,5",
        "n|n|1",
    ] {
        assert_eq!(decode_num(text), Err(Error::InvalidNumber), "{:?}", text);
    }
}

#[test]
fn special_values_are_exactly_three() {
    assert_eq!(decode_special("N|+"), Ok(Special::Infinity));
    assert_eq!(decode_special("N|-"), Ok(Special::NegInfinity));
    assert_eq!(decode_special("N|0"), Ok(Special::NaN));
    for text in ["N|", "N|1", "N|++", "n|+", "N+", "", "+", "N|+ "] {
        assert_eq!(
            decode_special(text),
            Err(Error::InvalidSpecialValue),
            "{:?}",
            text
        );
    }
    assert!(is_special_value("N|"));
    assert!(is_special_value("N|anything"));
    assert!(!is_special_value("N"));
    assert!(!is_special_value(""));
}

#[test]
fn errors_describe_themselves() {
    assert_eq!(Error::InvalidKey.message(), "invalid key");
    assert_eq!(Error::IndexOutOfRange.message(), "index out of range");
    assert_eq!(Error::InvalidNumber.message(), "invalid number");
    assert_eq!(
        Error::InvalidSpecialValue.message(),
        "invalid special value"
    );
    assert_eq!(
        Error::InvalidObjectSchema.message(),
        "invalid object schema"
    );
    assert_eq!(Error::CyclicReference.message(), "cyclic reference");
    assert_eq!(
        Error::UnsupportedValue(Special::NaN).message(),
        "unsupported data type: [number NaN]"
    );
    assert_eq!(
        Error::UnsupportedValue(Special::Infinity).message(),
        "unsupported data type: [number Infinity]"
    );
    assert_eq!(
        Error::UnsupportedValue(Special::NegInfinity).message(),
        "unsupported data type: [number -Infinity]"
    );
    assert_eq!(Special::NaN.name(), "NaN");
}

#[test]
fn the_same_value_gets_the_same_key() {
    let mut mem = make_memory();
    let first = get_value_key(&mut mem, "repeated");
    let other = get_value_key(&mut mem, "another");
    let second = get_value_key(&mut mem, "repeated");
    assert_eq!(first, "0");
    assert_eq!(other, "1");
    assert_eq!(second, "0");
    assert_eq!(mem_to_values(&mem), list(&["repeated", "another"]));
}

#[test]
fn the_same_tree_is_stored_once() {
    let mut mem = make_memory();
    let key1 = add_value(&mut mem, &s("repeated")).unwrap();
    let key2 = add_value(&mut mem, &s("repeated")).unwrap();
    assert_eq!(key1, key2);
    assert_eq!(mem_to_values(&mem).len(), 1);

    let tree = obj(vec![("k", arr(vec![whole(1), whole(2)]))]);
    let key3 = add_value(&mut mem, &tree).unwrap();
    let size = mem_to_values(&mem).len();
    let key4 = add_value(&mut mem, &tree).unwrap();
    assert_eq!(key3, key4);
    assert_eq!(mem_to_values(&mem).len(), size);
}

#[test]
fn equal_parts_of_a_tree_are_stored_once() {
    let part = arr(vec![whole(1), s("x")]);
    let (values, root) = compress(&arr(vec![part.clone(), part.clone(), part]));
    assert_eq!(values, list(&["n|1", "x", "a|0|1", "a|2|2|2"]));
    assert_eq!(root, "3");
}

#[test]
fn keys_go_on_past_the_single_digits() {
    let items: Vec<Value> = (0..70).map(whole).collect();
    let (values, root) = compress(&arr(items.clone()));
    assert_eq!(values.len(), 71);
    assert_eq!(values[61], "n|61");
    assert_eq!(values[62], "n|62");
    assert!(values[70].starts_with("a|0|1|2|"));
    assert!(values[70].ends_with("|z|10|11|12|13|14|15|16|17"));
    assert_eq!(root, "18");
    assert_eq!(decompress((values, root)), Ok(arr(items)));
}

#[test]
fn objects_with_the_same_names_share_one_schema() {
    let data = arr(vec![
        obj(vec![("id", whole(1)), ("name", s("first"))]),
        obj(vec![("id", whole(2)), ("name", s("second"))]),
        obj(vec![("id", whole(3)), ("name", s("third"))]),
    ]);
    let (values, root) = compress(&data);
    assert_eq!(
        values,
        list(&[
            "id",
            "name",
            "a|0|1",
            "n|1",
            "first",
            "o|2|3|4",
            "n|2",
            "second",
            "o|2|6|7",
            "n|3",
            "third",
            "o|2|9|A",
            "a|5|8|B",
        ])
    );
    assert_eq!(root, "C");
    assert_eq!(values.iter().filter(|v| *v == "a|0|1").count(), 1);
}

#[test]
fn a_schema_is_found_again_by_its_names() {
    let mut mem = make_memory();
    let names = list(&["id", "name"]);
    let first = get_schema(&mut mem, &names);
    let values = mem_to_values(&mem);
    let second = get_schema(&mut mem, &names);
    assert_eq!(first, "2");
    assert_eq!(second, "2");
    assert_eq!(values, list(&["id", "name", "a|0|1"]));
    assert_eq!(mem_to_values(&mem), values);

    let other = get_schema(&mut mem, &list(&["name", "id"]));
    assert_eq!(other, "3");
    assert_eq!(mem_to_values(&mem), list(&["id", "name", "a|0|1", "a|1|0"]));
}

#[test]
fn a_null_element_keeps_its_place() {
    let (values, root) = compress(&arr(vec![Value::Null]));
    assert_eq!(values, list(&["a|_"]));
    assert_eq!(root, "0");
    assert_eq!(decompress((values, root)), Ok(arr(vec![Value::Null])));
}

#[test]
fn empty_containers() {
    let (values, root) = compress(&obj(vec![]));
    assert_eq!(values, list(&["o|"]));
    assert_eq!(root, "0");
    assert_eq!(decompress((values, root)), Ok(obj(vec![])));

    let (values, root) = compress(&arr(vec![]));
    assert_eq!(values, list(&["a|"]));
    assert_eq!(root, "0");
    assert_eq!(decompress((values, root)), Ok(arr(vec![])));
}

#[test]
fn null_takes_no_entry() {
    let (values, root) = compress(&Value::Null);
    assert!(values.is_empty());
    assert_eq!(root, "");
    assert_eq!(decompress((values, root)), Ok(Value::Null));
}

#[test]
fn special_values_become_null_by_default() {
    for x in [Special::NaN, Special::Infinity, Special::NegInfinity] {
        let (values, root) = compress(&special(x));
        assert!(values.is_empty());
        assert_eq!(root, "");
        assert_eq!(decompress((values, root)), Ok(Value::Null));
    }
    let data = obj(vec![("x", special(Special::NaN)), ("y", whole(1))]);
    let expected = obj(vec![("x", Value::Null), ("y", whole(1))]);
    assert_eq!(decompress(compress(&data)), Ok(expected));
}

#[test]
fn special_values_are_kept_where_the_options_say_so() {
    let keep_nan = Config {
        preserve_nan: true,
        ..options()
    };
    assert_eq!(
        compress_with(&special(Special::NaN), keep_nan),
        Ok((list(&["N|0"]), "0".to_string()))
    );
    assert_eq!(
        compress_with(&special(Special::Infinity), keep_nan),
        Ok((list(&[]), "".to_string()))
    );
    let keep_infinite = Config {
        preserve_infinite: true,
        ..options()
    };
    assert_eq!(
        compress_with(&special(Special::Infinity), keep_infinite),
        Ok((list(&["N|+"]), "0".to_string()))
    );
    assert_eq!(
        compress_with(&special(Special::NegInfinity), keep_infinite),
        Ok((list(&["N|-"]), "0".to_string()))
    );
    assert_eq!(
        compress_with(&special(Special::NaN), keep_infinite),
        Ok((list(&[]), "".to_string()))
    );
    assert_eq!(decode(&list(&["N|+"]), "0"), Ok(Value::Null));
}

#[test]
fn special_values_are_refused_where_the_options_say_so() {
    let strict_nan = Config {
        error_on_nan: true,
        ..options()
    };
    assert_eq!(
        compress_with(&special(Special::NaN), strict_nan),
        Err(Error::UnsupportedValue(Special::NaN))
    );
    assert_eq!(
        compress_with(&special(Special::Infinity), strict_nan),
        Ok((list(&[]), "".to_string()))
    );
    let strict_infinite = Config {
        error_on_infinite: true,
        ..options()
    };
    assert_eq!(
        compress_with(&special(Special::Infinity), strict_infinite),
        Err(Error::UnsupportedValue(Special::Infinity))
    );
    assert_eq!(
        compress_with(&special(Special::NegInfinity), strict_infinite),
        Err(Error::UnsupportedValue(Special::NegInfinity))
    );
    let nested = arr(vec![whole(1), obj(vec![("x", special(Special::NaN))])]);
    assert_eq!(
        compress_with(&nested, strict_nan),
        Err(Error::UnsupportedValue(Special::NaN))
    );
    assert_eq!(
        compress_with(&arr(vec![whole(1), s("x")]), strict_nan),
        Ok((list(&["n|1", "x", "a|0|1"]), "2".to_string()))
    );
}

#[test]
fn preserving_wins_over_refusing() {
    let both = Config {
        preserve_nan: true,
        error_on_nan: true,
        preserve_infinite: true,
        error_on_infinite: true,
        ..options()
    };
    assert_eq!(
        compress_with(&special(Special::NaN), both),
        Ok((list(&["N|0"]), "0".to_string()))
    );
    assert_eq!(
        compress_with(&special(Special::NegInfinity), both),
        Ok((list(&["N|-"]), "0".to_string()))
    );
}

#[test]
fn a_failed_walk_leaves_what_it_had_added() {
    let strict = Config {
        error_on_nan: true,
        ..options()
    };
    let mut mem = make_memory_with(strict);
    let tree = arr(vec![s("kept"), special(Special::NaN), s("never")]);
    assert_eq!(
        add_value(&mut mem, &tree),
        Err(Error::UnsupportedValue(Special::NaN))
    );
    assert_eq!(mem_to_values(&mem), list(&["kept"]));
}

#[test]
fn object_with_array_scenario() {
    let data = obj(vec![
        ("a", whole(1)),
        (
            "b",
            arr(vec![Value::Bool(true), Value::Bool(false), Value::Null]),
        ),
    ]);
    let (values, root) = compress(&data);
    assert_eq!(
        values,
        list(&["a", "b", "a|0|1", "n|1", "b|T", "b|F", "a|4|5|_", "o|2|3|6"])
    );
    assert_eq!(root, "7");
    assert_eq!(decode(&values, "2"), Ok(arr(vec![s("a"), s("b")])));
    let references = values
        .iter()
        .filter(|v| v.starts_with("o|2|") || v.as_str() == "o|2")
        .count();
    assert_eq!(references, 1);
    assert_eq!(decompress((values, root)), Ok(data));
}

#[test]
fn a_string_is_not_taken_for_a_list_of_names() {
    let data = arr(vec![
        arr(vec![s("id,name")]),
        obj(vec![("id", whole(1)), ("name", s("x"))]),
    ]);
    let (values, root) = compress(&data);
    assert_eq!(
        values,
        list(&[
            "id,name", "a|0", "id", "name", "a|2|3", "n|1", "x", "o|4|5|6", "a|1|7",
        ])
    );
    assert_eq!(decompress((values, root)), Ok(data));

    let data = arr(vec![
        obj(vec![("id", whole(1)), ("name", s("x"))]),
        s("id,name"),
    ]);
    assert_eq!(decompress(compress(&data)), Ok(data));
}

#[test]
fn names_that_read_alike_keep_their_own_schemas() {
    let data = arr(vec![
        obj(vec![("a,b", whole(1))]),
        obj(vec![("a", whole(1)), ("b", whole(2))]),
    ]);
    let (values, root) = compress(&data);
    assert_eq!(
        values,
        list(&[
            "a,b", "a|0", "n|1", "o|1|2", "a", "b", "a|4|5", "n|2", "o|6|2|7", "a|3|8",
        ])
    );
    assert_eq!(root, "9");
    assert_eq!(decompress((values, root)), Ok(data));
}

#[test]
fn names_with_commas_and_backslashes_keep_their_own_schemas() {
    let lists: Vec<Vec<&str>> = vec![
        vec!["a,b"],
        vec!["a", "b"],
        vec!["a\\", "b"],
        vec!["a\\,b"],
        vec!["a\\", ",b"],
        vec!["a,", "b"],
        vec![",", ""],
        vec!["", ","],
        vec![",,"],
        vec!["", "", ""],
        vec!["", ""],
        vec![""],
        vec![],
        vec!["\\"],
        vec!["\\,"],
        vec!["\\", ""],
    ];
    let mut mem = make_memory();
    let mut keys: Vec<String> = Vec::new();
    for names in &lists {
        let key = get_schema(&mut mem, &list(names));
        assert!(!keys.contains(&key), "{:?} shares a schema", names);
        let expected = arr(names.iter().map(|n| s(n)).collect());
        assert_eq!(decode(&mem_to_values(&mem), &key), Ok(expected));
        keys.push(key);
    }
    for (names, key) in lists.iter().zip(keys.iter()) {
        let size = mem_to_values(&mem).len();
        assert_eq!(&get_schema(&mut mem, &list(names)), key);
        assert_eq!(mem_to_values(&mem).len(), size);
    }
}

#[test]
fn objects_whose_names_read_alike_round_trip() {
    let data = arr(vec![
        obj(vec![("a,b", whole(1))]),
        obj(vec![("a", whole(2)), ("b", whole(3))]),
        obj(vec![("a\\", whole(4)), (",b", whole(5))]),
        obj(vec![("a\\,b", whole(6))]),
        obj(vec![("", whole(7))]),
        obj(vec![(",", whole(8))]),
        obj(vec![("", whole(9)), (",", whole(10))]),
    ]);
    assert!(data.is_well_formed());
    assert_eq!(decompress(compress(&data)), Ok(data.clone()));
    let sorting = Config {
        sort_key: true,
        ..options()
    };
    let expected = arr(vec![
        obj(vec![("a,b", whole(1))]),
        obj(vec![("a", whole(2)), ("b", whole(3))]),
        obj(vec![(",b", whole(5)), ("a\\", whole(4))]),
        obj(vec![("a\\,b", whole(6))]),
        obj(vec![("", whole(7))]),
        obj(vec![(",", whole(8))]),
        obj(vec![("", whole(9)), (",", whole(10))]),
    ]);
    assert_eq!(decompress(compress_with(&data, sorting).unwrap()), Ok(expected));
}

#[test]
fn decoded_whole_numbers_have_one_form() {
    assert_eq!(decode_num("n|-0"), Ok(Number::PosInt(0)));
    assert_eq!(decode_num("n|-1"), Ok(Number::NegInt(-1)));
    assert_eq!(decode_num("n|+0"), Ok(Number::PosInt(0)));
    assert_eq!(decode_num("n|9223372036854775807"), Ok(Number::PosInt(9223372036854775807)));
    assert_eq!(
        decode(&list(&["n|-0", "n|-5", "a|0|1"]), "2"),
        Ok(arr(vec![whole(0), whole(-5)]))
    );
}

fn sample_tree() -> Value {
    obj(vec![
        ("users", arr(vec![
            obj(vec![("id", whole(1)), ("tags", arr(vec![s("a"), s("b")])), ("x", Value::Null)]),
            obj(vec![("id", whole(2)), ("tags", arr(vec![s("a"), s("b")])), ("x", s("a"))]),
            obj(vec![("id", whole(1)), ("tags", arr(vec![])), ("x", obj(vec![]))]),
        ])),
        ("count", whole(3)),
        ("same", arr(vec![s("a"), s("b")])),
        ("holes", arr(vec![Value::Null, special(Special::NaN), whole(1)])),
    ])
}

#[test]
fn every_entry_refers_to_earlier_entries() {
    let (values, root) = compress(&sample_tree());
    assert_eq!(root, int_to_s(values.len() - 1));
    for (i, text) in values.iter().enumerate() {
        let holds_keys = (text.starts_with("a|") && text != "a|")
            || (text.starts_with("o|") && text != "o|");
        if holds_keys {
            for part in text.split('|').skip(1) {
                if part.is_empty() || part == "_" {
                    continue;
                }
                let at = s_to_int(part).unwrap();
                assert!(at < i, "entry {} refers to {}", i, at);
                assert_eq!(int_to_s(at), part);
            }
        }
    }
    let mut seen = values.clone();
    seen.sort();
    seen.dedup();
    assert_eq!(seen.len(), values.len());
}

#[test]
fn like_objects_have_one_schema_entry_however_many() {
    for n in [1usize, 2, 5, 40] {
        let items: Vec<Value> = (0..n)
            .map(|i| obj(vec![("id", whole(i as i64)), ("name", s("x")), ("ok", Value::Bool(true))]))
            .collect();
        let (values, _) = compress(&arr(items));
        let names = arr(vec![s("id"), s("name"), s("ok")]);
        let schemas: Vec<usize> = (0..values.len())
            .filter(|i| decode(&values, &int_to_s(*i)) == Ok(names.clone()))
            .collect();
        assert_eq!(schemas, vec![3]);
        let objects: Vec<&String> = values.iter().filter(|v| v.starts_with("o|")).collect();
        assert_eq!(objects.len(), n);
        assert!(objects.iter().all(|v| v.starts_with("o|3|")));
    }
}

#[test]
fn keys_name_entries_of_the_list() {
    let mut mem = make_memory();
    let tree = obj(vec![("k", arr(vec![whole(1), Value::Null, s("x")]))]);
    let key = add_value(&mut mem, &tree).unwrap();
    let values = mem_to_values(&mem);
    assert_eq!(s_to_int(&key), Ok(values.len() - 1));
    assert_eq!(int_to_s(values.len() - 1), key);
    assert_eq!(add_value(&mut mem, &Value::Null), Ok(String::new()));
    assert_eq!(decode(&values, &key), Ok(tree));
}

#[test]
fn sorted_names_share_one_schema() {
    let sorting = Config {
        sort_key: true,
        ..options()
    };
    let data = arr(vec![
        obj(vec![("b", whole(1)), ("a", whole(2))]),
        obj(vec![("a", whole(3)), ("b", whole(4))]),
    ]);
    let (values, root) = compress_with(&data, sorting).unwrap();
    assert_eq!(
        values,
        list(&[
            "a", "b", "a|0|1", "n|2", "n|1", "o|2|3|4", "n|3", "n|4", "o|2|6|7", "a|5|8",
        ])
    );
    let expected = arr(vec![
        obj(vec![("a", whole(2)), ("b", whole(1))]),
        obj(vec![("a", whole(3)), ("b", whole(4))]),
    ]);
    assert_eq!(decompress((values, root)), Ok(expected));
}

#[test]
fn unsorted_names_keep_their_order() {
    let data = arr(vec![
        obj(vec![("b", whole(1)), ("a", whole(2))]),
        obj(vec![("a", whole(3)), ("b", whole(4))]),
    ]);
    let (values, root) = compress(&data);
    assert_eq!(
        values,
        list(&[
            "b", "a", "a|0|1", "n|1", "n|2", "o|2|3|4", "a|1|0", "n|3", "n|4", "o|6|7|8",
            "a|5|9",
        ])
    );
    assert_eq!(decompress((values, root)), Ok(data));
}

#[test]
fn sorting_goes_by_characters() {
    let sorting = Config {
        sort_key: true,
        ..options()
    };
    let data = obj(vec![
        ("b", whole(1)),
        ("ab", whole(2)),
        ("", whole(3)),
        ("a", whole(4)),
        ("B", whole(5)),
        ("é", whole(6)),
        ("aa", whole(7)),
    ]);
    let expected = obj(vec![
        ("", whole(3)),
        ("B", whole(5)),
        ("a", whole(4)),
        ("aa", whole(7)),
        ("ab", whole(2)),
        ("b", whole(1)),
        ("é", whole(6)),
    ]);
    let compressed = compress_with(&data, sorting).unwrap();
    assert_eq!(decompress(compressed), Ok(expected));
}

#[test]
fn decoding_follows_references_in_any_direction() {
    let values = list(&["a|1|3", "a|2", "x", "n|5"]);
    assert_eq!(
        decode(&values, "0"),
        Ok(arr(vec![arr(vec![s("x")]), whole(5)]))
    );
    let chain = list(&["a|1", "a|2", "a|3", "deep"]);
    assert_eq!(
        decode(&chain, "0"),
        Ok(arr(vec![arr(vec![arr(vec![s("deep")])])]))
    );
}

#[test]
fn decoding_reports_references_that_never_end() {
    assert_eq!(decode(&list(&["a|0"]), "0"), Err(Error::CyclicReference));
    assert_eq!(
        decode(&list(&["a|1", "a|0"]), "1"),
        Err(Error::CyclicReference)
    );
    assert_eq!(
        decode(&list(&["k", "o|0|1"]), "1"),
        Err(Error::CyclicReference)
    );
}

#[test]
fn decoding_reports_bad_keys() {
    let values = list(&["x", "a|0|!", "a|0|5", "a|-"]);
    assert_eq!(decode(&values, "!"), Err(Error::InvalidKey));
    assert_eq!(decode(&values, "0 "), Err(Error::InvalidKey));
    assert_eq!(decode(&values, "4"), Err(Error::IndexOutOfRange));
    assert_eq!(decode(&values, "zzzzzzzzzzzzzzzz"), Err(Error::IndexOutOfRange));
    assert_eq!(decode(&values, "1"), Err(Error::InvalidKey));
    assert_eq!(decode(&values, "2"), Err(Error::IndexOutOfRange));
    assert_eq!(decode(&values, "3"), Err(Error::InvalidKey));
    assert_eq!(decode(&Vec::new(), "0"), Err(Error::IndexOutOfRange));
}

#[test]
fn decoding_reports_malformed_entries() {
    let values = list(&["n|x", "N|?", "a|0", "a|1", "o|0"]);
    assert_eq!(decode(&values, "0"), Err(Error::InvalidNumber));
    assert_eq!(decode(&values, "1"), Err(Error::InvalidSpecialValue));
    assert_eq!(decode(&values, "2"), Err(Error::InvalidNumber));
    assert_eq!(decode(&values, "3"), Err(Error::InvalidSpecialValue));
    assert_eq!(decode(&values, "4"), Err(Error::InvalidNumber));
}

#[test]
fn decoding_reports_the_first_failure_in_reading_order() {
    let values = list(&["n|x", "N|?", "a|1|0", "a|0|1"]);
    assert_eq!(decode(&values, "2"), Err(Error::InvalidSpecialValue));
    assert_eq!(decode(&values, "3"), Err(Error::InvalidNumber));
}

#[test]
fn a_schema_must_be_names() {
    let values = list(&[
        "n|1", "o|0|0", "b|T", "o|2", "a|0", "o|4|0", "o|", "o|6|0", "a|", "o|8|0", "o||0",
    ]);
    assert_eq!(decode(&values, "1"), Err(Error::InvalidObjectSchema));
    assert_eq!(decode(&values, "3"), Err(Error::InvalidObjectSchema));
    assert_eq!(decode(&values, "5"), Err(Error::InvalidObjectSchema));
    assert_eq!(decode(&values, "7"), Err(Error::InvalidObjectSchema));
    assert_eq!(decode(&values, "9"), Err(Error::InvalidObjectSchema));
    assert_eq!(decode(&values, "A"), Err(Error::InvalidObjectSchema));
}

#[test]
fn a_schema_must_name_every_value() {
    let values = list(&["k", "a|0", "v", "o|1|2|2", "o|1|2", "o|1"]);
    assert_eq!(decode(&values, "3"), Err(Error::InvalidObjectSchema));
    assert_eq!(decode(&values, "4"), Ok(obj(vec![("k", s("v"))])));
    assert_eq!(decode(&values, "5"), Ok(obj(vec![])));
}

#[test]
fn a_single_string_is_a_schema_of_one_name() {
    let values = list(&["k", "v", "o|0|1", "s|n|1", "o|3|1"]);
    assert_eq!(decode(&values, "2"), Ok(obj(vec![("k", s("v"))])));
    assert_eq!(decode(&values, "4"), Ok(obj(vec![("n|1", s("v"))])));
}

#[test]
fn a_repeated_name_keeps_its_place_and_its_last_value() {
    let values = list(&["k", "j", "a|0|1|0", "v1", "v2", "v3", "o|2|3|4|5"]);
    assert_eq!(
        decode(&values, "6"),
        Ok(obj(vec![("k", s("v3")), ("j", s("v2"))]))
    );
}

#[test]
fn null_keys_are_null() {
    let values = list(&["k", "a|0", "o|1|", "o|1|_", "a||_|"]);
    assert_eq!(decode(&values, ""), Ok(Value::Null));
    assert_eq!(decode(&values, "_"), Ok(Value::Null));
    assert_eq!(decode(&values, "2"), Ok(obj(vec![("k", Value::Null)])));
    assert_eq!(decode(&values, "3"), Ok(obj(vec![("k", Value::Null)])));
    assert_eq!(
        decode(&values, "4"),
        Ok(arr(vec![Value::Null, Value::Null, Value::Null]))
    );
}

#[test]
fn set_field_replaces_in_place_or_appends() {
    let mut object: Object = Vec::new();
    set_field(&mut object, "a".to_string(), whole(1));
    set_field(&mut object, "b".to_string(), whole(2));
    set_field(&mut object, "a".to_string(), whole(3));
    assert_eq!(
        object,
        vec![("a".to_string(), whole(3)), ("b".to_string(), whole(2))]
    );
}

#[test]
fn values_can_be_copied() {
    let data = obj(vec![
        ("a", arr(vec![whole(1), whole(-1), Value::Null])),
        ("b", Value::Number(Number::Float("1.5".to_string()))),
        ("c", special(Special::NaN)),
        ("d", obj(vec![("e", Value::Bool(true)), ("f", s("x"))])),
    ]);
    assert_eq!(data.clone(), data);
    assert_eq!(Number::PosInt(5).clone(), Number::PosInt(5));
}

#[test]
fn well_formed_values() {
    let float = |t: &str| Value::Number(Number::Float(t.to_string()));
    assert!(Value::Null.is_well_formed());
    assert!(whole(-5).is_well_formed());
    assert!(Value::Number(Number::NegInt(5)).is_well_formed());
    assert!(special(Special::NaN).is_well_formed());
    assert!(float("1.5").is_well_formed());
    assert!(float("1e5").is_well_formed());
    assert!(float("18446744073709551616").is_well_formed());
    assert!(!float("42").is_well_formed());
    assert!(!float("-0").is_well_formed());
    assert!(!float("abc").is_well_formed());
    assert!(!float("").is_well_formed());
    assert!(Number::Float("0.5".to_string()).is_well_formed());
    assert!(!Number::Float("5".to_string()).is_well_formed());
    assert!(obj(vec![("a", whole(1)), ("b", whole(2))]).is_well_formed());
    assert!(obj(vec![]).is_well_formed());
    assert!(!obj(vec![("a", whole(1)), ("b", whole(2)), ("a", whole(3))]).is_well_formed());
    assert!(!arr(vec![whole(1), obj(vec![("k", float("7"))])]).is_well_formed());
    assert!(!obj(vec![("k", arr(vec![obj(vec![("x", s("1")), ("x", s("2"))])]))]).is_well_formed());
    assert!(arr(vec![obj(vec![("x", s("1"))]), obj(vec![("x", s("2"))])]).is_well_formed());
}

#[test]
fn what_is_decoded_is_well_formed() {
    let values = list(&["k", "a|0|0", "n|007", "n|1.50", "o|1|2|3", "a|4|2|3"]);
    let decoded = decode(&values, "5").unwrap();
    assert!(decoded.is_well_formed());
    assert_eq!(
        decoded,
        arr(vec![
            obj(vec![("k", Value::Number(Number::Float("1.50".to_string())))]),
            whole(7),
            Value::Number(Number::Float("1.50".to_string())),
        ])
    );
}

#[test]
fn the_default_options_change_nothing() {
    let cfg = Config::default();
    assert!(!cfg.sort_key);
    assert!(!cfg.preserve_nan);
    assert!(!cfg.preserve_infinite);
    assert!(!cfg.error_on_nan);
    assert!(!cfg.error_on_infinite);
}
