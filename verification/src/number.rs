//! Radix-62 reference keys.
//!
//! A key is the position of an entry in the value list, written with the
//! digits `0-9`, `A-Z`, `a-z` (in this order of value), most significant digit
//! first and without leading zeros.

use vstd::prelude::*;
use crate::error::Error;
use crate::text::{chars_of, reverse_chars};

verus! {

/// Whether `c` is one of the 62 digits.
pub open spec fn is_digit_char(c: char) -> bool {
    ('0' <= c && c <= '9') || ('A' <= c && c <= 'Z') || ('a' <= c && c <= 'z')
}

/// The value of the digit `c`.
pub open spec fn digit_value(c: char) -> nat {
    if '0' <= c && c <= '9' {
        (c as nat - 48) as nat
    } else if 'A' <= c && c <= 'Z' {
        (c as nat - 55) as nat
    } else {
        (c as nat - 61) as nat
    }
}

/// The digit whose value is `d`.
pub open spec fn digit_char(d: nat) -> char {
    if d < 10 {
        (d + 48) as char
    } else if d < 36 {
        (d + 55) as char
    } else {
        (d + 61) as char
    }
}

/// The key of position `n`.
pub open spec fn index_to_key(n: nat) -> Seq<char>
    decreases n,
{
    if n < 62 {
        seq![digit_char(n)]
    } else {
        index_to_key(n / 62).push(digit_char(n % 62))
    }
}

/// Whether every character of `s` is a digit.
pub open spec fn is_key(s: Seq<char>) -> bool {
    forall|i: int| 0 <= i < s.len() ==> is_digit_char(#[trigger] s[i])
}

/// The number that the digits of `s` spell, most significant first.
pub open spec fn key_value(s: Seq<char>) -> nat
    decreases s.len(),
{
    if s.len() == 0 {
        0
    } else {
        key_value(s.drop_last()) * 62 + digit_value(s.last())
    }
}

/// The position that `s` names, if `s` is made of digits.
pub open spec fn key_to_index(s: Seq<char>) -> Option<nat> {
    if is_key(s) {
        Some(key_value(s))
    } else {
        None
    }
}

/// A digit and its value determine each other.
pub proof fn lemma_digit_round_trip(d: nat)
    requires
        d < 62,
    ensures
        is_digit_char(digit_char(d)),
        digit_value(digit_char(d)) == d,
{
}

/// Every key is made of digits, is not empty, and spells its own position.
pub proof fn lemma_key_round_trip(n: nat)
    ensures
        index_to_key(n).len() >= 1,
        is_key(index_to_key(n)),
        key_value(index_to_key(n)) == n,
        key_to_index(index_to_key(n)) == Some(n),
    decreases n,
{
    if n < 62 {
        lemma_digit_round_trip(n);
        let k = index_to_key(n);
        assert(k.drop_last() =~= Seq::<char>::empty());
        assert(key_value(k.drop_last()) == 0);
    } else {
        lemma_key_round_trip(n / 62);
        lemma_digit_round_trip(n % 62);
        let k = index_to_key(n);
        assert(k.drop_last() =~= index_to_key(n / 62));
    }
}

/// Two positions with the same key are the same position.
pub proof fn lemma_key_injective(a: nat, b: nat)
    requires
        index_to_key(a) == index_to_key(b),
    ensures
        a == b,
{
    lemma_key_round_trip(a);
    lemma_key_round_trip(b);
}

/// The digits of a prefix spell no more than the digits of the whole.
pub proof fn lemma_key_value_prefix(s: Seq<char>, j: int)
    requires
        0 <= j <= s.len(),
    ensures
        key_value(s.take(j)) <= key_value(s),
    decreases s.len() - j,
{
    if j == s.len() {
        assert(s.take(j) =~= s);
    } else {
        lemma_key_value_prefix(s, j + 1);
        let t = s.take(j + 1);
        assert(t.drop_last() =~= s.take(j));
        assert(key_value(t) == key_value(s.take(j)) * 62 + digit_value(t.last()));
    }
}

fn digit_to_char(d: usize) -> (c: char)
    requires
        d < 62,
    ensures
        c == digit_char(d as nat),
{
    let s = "0123456789ABCDEFGHIJKLMNOPQRSTUVWXYZabcdefghijklmnopqrstuvwxyz";
    proof {
        reveal_strlit("0123456789ABCDEFGHIJKLMNOPQRSTUVWXYZabcdefghijklmnopqrstuvwxyz");
    }
    s.get_char(d)
}

fn char_to_digit(c: char) -> (d: Option<usize>)
    ensures
        d is Some <==> is_digit_char(c),
        d matches Some(v) ==> v == digit_value(c) && v < 62,
{
    if '0' <= c && c <= '9' {
        Some((c as usize) - 48)
    } else if 'A' <= c && c <= 'Z' {
        Some((c as usize) - 55)
    } else if 'a' <= c && c <= 'z' {
        Some((c as usize) - 61)
    } else {
        None
    }
}

/// Reads a key.
///
/// Fails with `InvalidKey` exactly when some character is no digit, and with
/// `IndexOutOfRange` exactly when the digits spell a number that no list can
/// be long enough for.
pub fn s_to_int(s: &str) -> (r: Result<usize, Error>)
    ensures
        r == (if !is_key(s@) {
            Err::<usize, Error>(Error::InvalidKey)
        } else if key_value(s@) > usize::MAX {
            Err(Error::IndexOutOfRange)
        } else {
            Ok(key_value(s@) as usize)
        }),
{
    let chars = chars_of(s);
    let n = chars.len();
    let mut i: usize = 0;
    while i < n
        invariant
            n == chars.len(),
            i <= n,
            chars@ == s@,
            forall|j: int| 0 <= j < i ==> is_digit_char(#[trigger] chars@[j]),
        decreases n - i,
    {
        if char_to_digit(chars[i]).is_none() {
            return Err(Error::InvalidKey);
        }
        i += 1;
    }
    let mut acc: usize = 0;
    i = 0;
    while i < n
        invariant
            n == chars.len(),
            i <= n,
            chars@ == s@,
            is_key(chars@),
            acc == key_value(chars@.take(i as int)),
        decreases n - i,
    {
        let d: usize = match char_to_digit(chars[i]) {
            Some(d) => d,
            None => 0,
        };
        proof {
            let t = chars@.take(i + 1);
            assert(t.drop_last() =~= chars@.take(i as int));
            assert(key_value(t) == acc * 62 + d);
            lemma_key_value_prefix(chars@, i + 1);
        }
        let shifted: usize = match acc.checked_mul(62) {
            Some(m) => m,
            None => {
                return Err(Error::IndexOutOfRange);
            },
        };
        acc = match shifted.checked_add(d) {
            Some(a) => a,
            None => {
                return Err(Error::IndexOutOfRange);
            },
        };
        i += 1;
    }
    assert(chars@.take(n as int) =~= chars@);
    Ok(acc)
}

/// Writes the key of position `value`.
pub fn int_to_s(value: usize) -> (key: String)
    ensures
        key@ == index_to_key(value as nat),
{
    let mut low_first: Vec<char> = Vec::new();
    let mut val: usize = value;
    while val >= 62
        invariant
            index_to_key(value as nat) == index_to_key(val as nat) + low_first@.reverse(),
        decreases val,
    {
        let ghost before = low_first@;
        low_first.push(digit_to_char(val % 62));
        proof {
            assert(low_first@.reverse() =~= seq![digit_char((val % 62) as nat)] + before.reverse());
            assert(index_to_key(val as nat) + before.reverse() =~= index_to_key((val / 62) as nat)
                + low_first@.reverse());
        }
        val = val / 62;
    }
    let ghost before = low_first@;
    low_first.push(digit_to_char(val));
    assert(low_first@.reverse() =~= index_to_key(val as nat) + before.reverse());
    reverse_chars(&low_first)
}

/// `s` with its characters in the opposite order.
pub fn reverse(s: &str) -> (r: String)
    ensures
        r@ == s@.reverse(),
{
    let chars = chars_of(s);
    reverse_chars(&chars)
}

} // verus!
