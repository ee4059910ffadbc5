//! The tagged text of booleans, strings, numbers and special numbers.
//!
//! An encoded value starts with a letter and a pipe that say what it is:
//! `b|` a boolean, `n|` a number, `N|` a special number, `a|` an array, `o|`
//! an object. Any other text is a string as it stands; a string that would
//! begin like a tag is stored behind `s|`.

use vstd::prelude::*;
use crate::boolean::bool_letter;
use crate::decimal::{
    check_float_text, i64_text, in_whole_range, int_text, is_float_text, lemma_int_text_round_trip,
    parse_whole, u64_text, whole_form, whole_value,
};
use crate::error::{Error, Special};
use crate::number::{is_key, key_value, s_to_int};
use crate::text::{chars_of, string_of, tail_of};
use crate::value::{Num, Number, result_view};

verus! {

/// The tag letter `tag`, a pipe, and `rest`.
pub open spec fn tagged(tag: char, rest: Seq<char>) -> Seq<char> {
    seq![tag, '|'] + rest
}

/// Whether `s` begins with the tag letter `tag` and a pipe.
pub open spec fn has_tag(s: Seq<char>, tag: char) -> bool {
    s.len() >= 2 && s[0] == tag && s[1] == '|'
}

/// Whether `s` begins like an encoded value of some kind.
pub open spec fn is_reserved(s: Seq<char>) -> bool {
    has_tag(s, 'b') || has_tag(s, 'o') || has_tag(s, 'n') || has_tag(s, 'N') || has_tag(s, 'a')
        || has_tag(s, 's')
}

/// The encoded text of the boolean `b`.
pub open spec fn encode_bool_spec(b: bool) -> Seq<char> {
    tagged('b', seq![bool_letter(b)])
}

/// What an encoded boolean means: `b|F` and the empty text are false, every
/// other text is true.
pub open spec fn decode_bool_spec(s: Seq<char>) -> bool {
    s.len() > 0 && s != tagged('b', seq!['F'])
}

/// The encoded text of the string `s`.
pub open spec fn encode_str_spec(s: Seq<char>) -> Seq<char> {
    if is_reserved(s) {
        tagged('s', s)
    } else {
        s
    }
}

/// The string behind the encoded text `s`.
pub open spec fn decode_str_spec(s: Seq<char>) -> Seq<char> {
    if has_tag(s, 's') {
        s.skip(2)
    } else {
        s
    }
}

/// The encoded text of a special number.
pub open spec fn encode_special_spec(x: Special) -> Seq<char> {
    match x {
        Special::Infinity => tagged('N', seq!['+']),
        Special::NegInfinity => tagged('N', seq!['-']),
        Special::NaN => tagged('N', seq!['0']),
    }
}

/// The special number behind the encoded text `s`.
pub open spec fn decode_special_spec(s: Seq<char>) -> Result<Special, Error> {
    if s == tagged('N', seq!['+']) {
        Ok(Special::Infinity)
    } else if s == tagged('N', seq!['-']) {
        Ok(Special::NegInfinity)
    } else if s == tagged('N', seq!['0']) {
        Ok(Special::NaN)
    } else {
        Err(Error::InvalidSpecialValue)
    }
}

/// The encoded text of the number `n`.
pub open spec fn encode_num_spec(n: Num) -> Seq<char> {
    match n {
        Num::Int(i) => tagged('n', int_text(i)),
        Num::Float(t) => tagged('n', t),
        Num::Special(x) => encode_special_spec(x),
    }
}

/// The number that the decimal text `t` spells: a whole number where `t` is
/// a sign and digits within range, else the text itself where it follows the
/// grammar of a number.
pub open spec fn parse_number(t: Seq<char>) -> Result<Num, Error> {
    if whole_value(t) is Some && in_whole_range(whole_value(t)->0) {
        Ok(Num::Int(whole_value(t)->0))
    } else if is_float_text(t) {
        Ok(Num::Float(t))
    } else {
        Err(Error::InvalidNumber)
    }
}

/// The number behind the encoded text `s`, whose tag `n|` may be missing.
pub open spec fn decode_num_spec(s: Seq<char>) -> Result<Num, Error> {
    parse_number(
        if has_tag(s, 'n') {
            s.skip(2)
        } else {
            s
        },
    )
}

/// Whether `n` is held in the one form that a decoder gives it: a whole
/// number within range as such, any other number by a text that follows the
/// grammar and does not spell a whole number within range.
pub open spec fn num_wf(n: Num) -> bool {
    match n {
        Num::Int(i) => in_whole_range(i),
        Num::Float(t) => parse_number(t) == Ok::<Num, Error>(Num::Float(t)),
        Num::Special(_) => true,
    }
}

/// Decoding an encoded finite number gives the number back.
pub proof fn lemma_num_round_trip(n: Num)
    requires
        num_wf(n),
        !(n is Special),
    ensures
        has_tag(encode_num_spec(n), 'n'),
        decode_num_spec(encode_num_spec(n)) == Ok::<Num, Error>(n),
{
    match n {
        Num::Int(i) => {
            lemma_int_text_round_trip(i);
            assert(tagged('n', int_text(i)).skip(2) =~= int_text(i));
        },
        Num::Float(t) => {
            assert(tagged('n', t).skip(2) =~= t);
        },
        Num::Special(_) => {},
    }
}

/// Decoding an encoded boolean gives the boolean back.
pub proof fn lemma_bool_round_trip(b: bool)
    ensures
        has_tag(encode_bool_spec(b), 'b'),
        decode_bool_spec(encode_bool_spec(b)) == b,
{
    if b {
        assert(encode_bool_spec(b)[2] != tagged('b', seq!['F'])[2]);
    }
}

/// Decoding an encoded string gives the string back, whatever it begins with.
pub proof fn lemma_str_round_trip(s: Seq<char>)
    ensures
        decode_str_spec(encode_str_spec(s)) == s,
{
    if is_reserved(s) {
        assert(tagged('s', s).skip(2) =~= s);
    }
}

/// An encoded string never begins like a boolean, a number, a special
/// number, an array or an object.
pub proof fn lemma_str_is_no_other_kind(s: Seq<char>)
    ensures
        !has_tag(encode_str_spec(s), 'b'),
        !has_tag(encode_str_spec(s), 'o'),
        !has_tag(encode_str_spec(s), 'n'),
        !has_tag(encode_str_spec(s), 'N'),
        !has_tag(encode_str_spec(s), 'a'),
{
}

/// Decoding an encoded special number gives it back.
pub proof fn lemma_special_round_trip(x: Special)
    ensures
        has_tag(encode_special_spec(x), 'N'),
        decode_special_spec(encode_special_spec(x)) == Ok::<Special, Error>(x),
{
    let plus = tagged('N', seq!['+']);
    let minus = tagged('N', seq!['-']);
    let zero = tagged('N', seq!['0']);
    assert(plus[2] != minus[2]);
    assert(plus[2] != zero[2]);
    assert(minus[2] != zero[2]);
}

/// Whether the text `chars` begins with `tag` and a pipe.
pub fn starts_with_tag(chars: &Vec<char>, tag: char) -> (b: bool)
    ensures
        b == has_tag(chars@, tag),
{
    chars.len() >= 2 && chars[0] == tag && chars[1] == '|'
}

/// A fresh string that holds `tag`, a pipe, and nothing else.
pub fn tag_text(tag: char) -> (s: String)
    ensures
        s@ == tagged(tag, Seq::empty()),
        s@ == seq![tag, '|'],
{
    let mut s = String::new();
    s.push(tag);
    s.push('|');
    assert(s@ =~= seq![tag, '|']);
    assert(tagged(tag, Seq::empty()) =~= seq![tag, '|']);
    s
}

/// Reads a reference key as a position in the value list.
///
/// Fails with `InvalidKey` exactly when some character is none of `0-9A-Za-z`,
/// and with `IndexOutOfRange` exactly when the digits spell more than any list
/// can hold.
pub fn decode_key(key: &str) -> (r: Result<usize, Error>)
    ensures
        r == (if !is_key(key@) {
            Err::<usize, Error>(Error::InvalidKey)
        } else if key_value(key@) > usize::MAX {
            Err(Error::IndexOutOfRange)
        } else {
            Ok(key_value(key@) as usize)
        }),
{
    s_to_int(key)
}

/// Encodes a boolean as `b|T` or `b|F`.
pub fn encode_bool(b: bool) -> (s: String)
    ensures
        s@ == encode_bool_spec(b),
{
    let mut s = tag_text('b');
    if b {
        s.push('T');
    } else {
        s.push('F');
    }
    assert(s@ =~= encode_bool_spec(b));
    s
}

/// Decodes a boolean: `b|T` is true, `b|F` is false, and any other text is
/// true unless it is empty.
pub fn decode_bool(s: &str) -> (b: bool)
    ensures
        b == decode_bool_spec(s@),
{
    let chars = chars_of(s);
    let ghost no = tagged('b', seq!['F']);
    if chars.len() == 0 {
        false
    } else if chars.len() == 3 && chars[0] == 'b' && chars[1] == '|' && chars[2] == 'F' {
        assert(s@ =~= no);
        false
    } else {
        assert(s@ != no) by {
            if s@.len() == 3 {
                assert(s@[0] != no[0] || s@[1] != no[1] || s@[2] != no[2]);
            }
        }
        true
    }
}

/// Encodes a string: as it stands, or behind `s|` if it begins with one of
/// `b|`, `o|`, `n|`, `N|`, `a|`, `s|`.
pub fn encode_str(s: &str) -> (r: String)
    ensures
        r@ == encode_str_spec(s@),
{
    let chars = chars_of(s);
    if starts_with_tag(&chars, 'b') || starts_with_tag(&chars, 'o') || starts_with_tag(&chars, 'n')
        || starts_with_tag(&chars, 'N') || starts_with_tag(&chars, 'a') || starts_with_tag(
        &chars,
        's',
    ) {
        let mut r = tag_text('s');
        r.append(s);
        r
    } else {
        String::from_str(s)
    }
}

/// Decodes a string: removes one leading `s|` if there is one, and changes
/// nothing else.
pub fn decode_str(s: &str) -> (r: String)
    ensures
        r@ == decode_str_spec(s@),
{
    let chars = chars_of(s);
    if starts_with_tag(&chars, 's') {
        let r = string_of(&chars, 2, chars.len());
        assert(chars@.subrange(2, chars.len() as int) =~= s@.skip(2));
        r
    } else {
        String::from_str(s)
    }
}

/// Encodes a number: `n|` and its decimal text, or the special form of a
/// number that has none.
pub fn encode_num(n: &Number) -> (s: String)
    ensures
        s@ == encode_num_spec(n@),
{
    match n {
        Number::PosInt(u) => {
            let mut s = tag_text('n');
            let digits = u64_text(*u);
            s.append(digits.as_str());
            s
        },
        Number::NegInt(i) => {
            let mut s = tag_text('n');
            let digits = i64_text(*i);
            s.append(digits.as_str());
            s
        },
        Number::Float(t) => {
            let mut s = tag_text('n');
            s.append(t.as_str());
            s
        },
        Number::Special(x) => encode_special(*x),
    }
}

/// Whether a number is held as a decoder gives it: a whole number as
/// `NegInt` if it is negative and else as `PosInt`, any other number by its
/// text.
pub open spec fn decoded_form(n: Number) -> bool {
    n is Float || whole_form(n)
}

/// Decodes a number from its decimal text, with or without the tag `n|`.
///
/// A sign and digits give a whole number, if it is no less than the least
/// `i64` and no more than the greatest `u64`: as `NegInt` if it is negative,
/// else as `PosInt`. Any other text that follows the grammar of a number is
/// kept as it is. Fails with `InvalidNumber` exactly when the text follows
/// neither.
pub fn decode_num(s: &str) -> (r: Result<Number, Error>)
    ensures
        result_view(r) == decode_num_spec(s@),
        r matches Ok(n) ==> decoded_form(n),
{
    let chars = chars_of(s);
    let from: usize = if starts_with_tag(&chars, 'n') {
        2
    } else {
        0
    };
    let body = tail_of(&chars, from);
    assert(s@.skip(0) =~= s@);
    match parse_whole(&body) {
        Some(n) => Ok(n),
        None => {
            if check_float_text(&body) {
                let t = string_of(&body, 0, body.len());
                assert(body@.subrange(0, body.len() as int) =~= body@);
                Ok(Number::Float(t))
            } else {
                Err(Error::InvalidNumber)
            }
        },
    }
}

/// Whether `s` is the encoded text of a special number, going by its tag `N|`.
pub fn is_special_value(s: &str) -> (b: bool)
    ensures
        b == has_tag(s@, 'N'),
{
    let chars = chars_of(s);
    starts_with_tag(&chars, 'N')
}

/// Encodes a special number: `N|+`, `N|-` or `N|0`.
pub fn encode_special(x: Special) -> (s: String)
    ensures
        s@ == encode_special_spec(x),
{
    let mut s = tag_text('N');
    match x {
        Special::Infinity => s.push('+'),
        Special::NegInfinity => s.push('-'),
        Special::NaN => s.push('0'),
    }
    assert(s@ =~= encode_special_spec(x));
    s
}

/// Decodes a special number.
///
/// Fails with `InvalidSpecialValue` unless `s` is exactly `N|+`, `N|-` or `N|0`.
pub fn decode_special(s: &str) -> (r: Result<Special, Error>)
    ensures
        r == decode_special_spec(s@),
{
    let chars = chars_of(s);
    let ghost plus = tagged('N', seq!['+']);
    let ghost minus = tagged('N', seq!['-']);
    let ghost zero = tagged('N', seq!['0']);
    if chars.len() == 3 && chars[0] == 'N' && chars[1] == '|' {
        let c = chars[2];
        if c == '+' {
            assert(s@ =~= plus);
            Ok(Special::Infinity)
        } else if c == '-' {
            assert(s@ =~= minus);
            assert(s@[2] != plus[2]);
            Ok(Special::NegInfinity)
        } else if c == '0' {
            assert(s@ =~= zero);
            assert(s@[2] != plus[2]);
            assert(s@[2] != minus[2]);
            Ok(Special::NaN)
        } else {
            assert(s@[2] != plus[2]);
            assert(s@[2] != minus[2]);
            assert(s@[2] != zero[2]);
            Err(Error::InvalidSpecialValue)
        }
    } else {
        assert(s@ != plus && s@ != minus && s@ != zero) by {
            if s@.len() == 3 {
                assert(s@[0] != plus[0] || s@[1] != plus[1]);
                assert(s@[0] != minus[0] || s@[1] != minus[1]);
                assert(s@[0] != zero[0] || s@[1] != zero[1]);
            }
        }
        Err(Error::InvalidSpecialValue)
    }
}

} // verus!
