//! Decimal text of numbers.
//!
//! A whole number is written as its digits, with a minus sign if it is
//! negative. Any other number is kept as the text it was written with, which
//! follows the grammar
//!
//! ```text
//! number   ::= sign? mantissa exponent?
//! mantissa ::= digit+ | digit+ '.' digit* | digit* '.' digit+
//! exponent ::= ('e' | 'E') sign? digit+
//! sign     ::= '+' | '-'
//! ```

use vstd::prelude::*;
use crate::text::reverse_chars;
use crate::value::Number;

verus! {

/// Whether `c` is one of `0` to `9`.
pub open spec fn is_dec_digit(c: char) -> bool {
    '0' <= c && c <= '9'
}

/// The decimal digit whose value is `d`.
pub open spec fn dec_digit(d: nat) -> char {
    (d + 48) as char
}

/// The value of the decimal digit `c`.
pub open spec fn dec_value(c: char) -> nat {
    (c as nat - 48) as nat
}

/// The digits of `n`, without leading zeros.
pub open spec fn nat_text(n: nat) -> Seq<char>
    decreases n,
{
    if n < 10 {
        seq![dec_digit(n)]
    } else {
        nat_text(n / 10).push(dec_digit(n % 10))
    }
}

/// The decimal text of the whole number `i`.
pub open spec fn int_text(i: int) -> Seq<char> {
    if i < 0 {
        seq!['-'] + nat_text((-i) as nat)
    } else {
        nat_text(i as nat)
    }
}

/// The number that the decimal digits `s` spell.
pub open spec fn digits_value(s: Seq<char>) -> nat
    decreases s.len(),
{
    if s.len() == 0 {
        0
    } else {
        digits_value(s.drop_last()) * 10 + dec_value(s.last())
    }
}

/// The first position at or after `from` where `s` holds no decimal digit.
pub open spec fn digits_end(s: Seq<char>, from: int) -> int
    decreases s.len() - from,
{
    if 0 <= from < s.len() && is_dec_digit(s[from]) {
        digits_end(s, from + 1)
    } else {
        from
    }
}

/// The position after a sign at `from`, or `from` if there is none.
pub open spec fn sign_end(s: Seq<char>, from: int) -> int {
    if 0 <= from < s.len() && (s[from] == '+' || s[from] == '-') {
        from + 1
    } else {
        from
    }
}

/// The whole number that `t` spells: an optional sign and at least one digit.
pub open spec fn whole_value(t: Seq<char>) -> Option<int> {
    let a = sign_end(t, 0);
    if a < t.len() && digits_end(t, a) == t.len() {
        let m = digits_value(t.skip(a));
        Some(
            if t[0] == '-' {
                -m
            } else {
                m as int
            },
        )
    } else {
        None
    }
}

/// Whether `t` follows the grammar of a number.
pub open spec fn is_float_text(t: Seq<char>) -> bool {
    let a = sign_end(t, 0);
    let b = digits_end(t, a);
    let dot = b < t.len() && t[b] == '.';
    let c = if dot {
        b + 1
    } else {
        b
    };
    let d = if dot {
        digits_end(t, c)
    } else {
        c
    };
    (b - a) + (d - c) > 0 && (d == t.len() || ((t[d] == 'e' || t[d] == 'E') && {
        let e = sign_end(t, d + 1);
        e < t.len() && digits_end(t, e) == t.len()
    }))
}

/// Whether a whole number can be held as such.
pub open spec fn in_whole_range(i: int) -> bool {
    i64::MIN <= i <= u64::MAX
}

/// The end of a run of digits lies between its start and the end of the text,
/// with digits all the way and no digit right after.
pub proof fn lemma_digits_end(s: Seq<char>, from: int)
    requires
        0 <= from <= s.len(),
    ensures
        from <= digits_end(s, from) <= s.len(),
        forall|i: int| from <= i < digits_end(s, from) ==> is_dec_digit(#[trigger] s[i]),
        digits_end(s, from) < s.len() ==> !is_dec_digit(s[digits_end(s, from)]),
    decreases s.len() - from,
{
    if from < s.len() && is_dec_digit(s[from]) {
        lemma_digits_end(s, from + 1);
    }
}

/// A run of digits that starts at `from` ends no earlier than any stretch of
/// digits from there.
pub proof fn lemma_digits_end_reaches(s: Seq<char>, from: int, to: int)
    requires
        0 <= from <= to <= s.len(),
        forall|i: int| from <= i < to ==> is_dec_digit(#[trigger] s[i]),
    ensures
        digits_end(s, from) == digits_end(s, to),
    decreases to - from,
{
    if from < to {
        lemma_digits_end_reaches(s, from + 1, to);
    }
}

/// The digits of a number are digits, at least one, and spell the number.
pub proof fn lemma_nat_text(n: nat)
    ensures
        nat_text(n).len() >= 1,
        forall|i: int| 0 <= i < nat_text(n).len() ==> is_dec_digit(#[trigger] nat_text(n)[i]),
        digits_value(nat_text(n)) == n,
    decreases n,
{
    let t = nat_text(n);
    if n < 10 {
        assert(t.drop_last() =~= Seq::<char>::empty());
        assert(digits_value(t.drop_last()) == 0);
    } else {
        lemma_nat_text(n / 10);
        assert(t.drop_last() =~= nat_text(n / 10));
    }
}

/// The decimal text of a whole number spells that number.
pub proof fn lemma_int_text_round_trip(i: int)
    ensures
        whole_value(int_text(i)) == Some(i),
{
    let t = int_text(i);
    if i < 0 {
        let m = (-i) as nat;
        lemma_nat_text(m);
        assert(t.skip(1) =~= nat_text(m));
        assert forall|k: int| 1 <= k < t.len() implies is_dec_digit(#[trigger] t[k]) by {
            assert(t[k] == nat_text(m)[k - 1]);
        }
        lemma_digits_end_reaches(t, 1, t.len() as int);
    } else {
        lemma_nat_text(i as nat);
        lemma_digits_end_reaches(t, 0, t.len() as int);
        assert(t.skip(0) =~= t);
    }
}

/// The digits of a prefix spell no more than the digits of the whole.
pub proof fn lemma_digits_value_prefix(s: Seq<char>, j: int)
    requires
        0 <= j <= s.len(),
    ensures
        digits_value(s.take(j)) <= digits_value(s),
    decreases s.len() - j,
{
    if j == s.len() {
        assert(s.take(j) =~= s);
    } else {
        lemma_digits_value_prefix(s, j + 1);
        let t = s.take(j + 1);
        assert(t.drop_last() =~= s.take(j));
    }
}

fn dec_digit_char(d: u64) -> (c: char)
    requires
        d < 10,
    ensures
        c == dec_digit(d as nat),
{
    let s = "0123456789";
    proof {
        reveal_strlit("0123456789");
    }
    s.get_char(d as usize)
}

/// The position after a sign at `from`, or `from` if there is none.
fn skip_sign(chars: &Vec<char>, from: usize) -> (to: usize)
    requires
        from <= chars.len(),
    ensures
        to == sign_end(chars@, from as int),
        from <= to <= chars.len(),
{
    if from < chars.len() && (chars[from] == '+' || chars[from] == '-') {
        from + 1
    } else {
        from
    }
}

/// The first position at or after `from` that holds no decimal digit.
fn skip_digits(chars: &Vec<char>, from: usize) -> (to: usize)
    requires
        from <= chars.len(),
    ensures
        to == digits_end(chars@, from as int),
        from <= to <= chars.len(),
{
    let mut i: usize = from;
    while i < chars.len() && '0' <= chars[i] && chars[i] <= '9'
        invariant
            from <= i <= chars.len(),
            digits_end(chars@, from as int) == digits_end(chars@, i as int),
        decreases chars.len() - i,
    {
        i += 1;
    }
    i
}

/// Whether `chars` follows the grammar of a number.
pub fn check_float_text(chars: &Vec<char>) -> (ok: bool)
    ensures
        ok == is_float_text(chars@),
{
    let n = chars.len();
    let a = skip_sign(chars, 0);
    let b = skip_digits(chars, a);
    let dot = b < n && chars[b] == '.';
    let c: usize = if dot {
        b + 1
    } else {
        b
    };
    let d: usize = if dot {
        skip_digits(chars, c)
    } else {
        c
    };
    if (b - a) + (d - c) == 0 {
        return false;
    }
    if d == n {
        return true;
    }
    if chars[d] != 'e' && chars[d] != 'E' {
        return false;
    }
    let e = skip_sign(chars, d + 1);
    e < n && skip_digits(chars, e) == n
}

/// Whether a whole number is held as a decoder gives it: as `NegInt` if it is
/// negative, else as `PosInt`.
pub open spec fn whole_form(n: Number) -> bool {
    match n {
        Number::PosInt(_) => true,
        Number::NegInt(i) => i < 0,
        _ => false,
    }
}

/// Reads a whole number: an optional sign and at least one digit, no less
/// than the least `i64` and no more than the greatest `u64`. A negative
/// number comes as `NegInt`, any other as `PosInt`.
pub fn parse_whole(chars: &Vec<char>) -> (r: Option<Number>)
    ensures
        match whole_value(chars@) {
            Some(i) if in_whole_range(i) => r matches Some(n) && n@ == crate::value::Num::Int(i),
            _ => r is None,
        },
        r matches Some(n) ==> whole_form(n),
{
    let n = chars.len();
    let a = skip_sign(chars, 0);
    if a >= n || skip_digits(chars, a) != n {
        return None;
    }
    let negative = chars[0] == '-';
    let ghost digits = chars@.skip(a as int);
    proof {
        lemma_digits_end(chars@, a as int);
    }
    let mut acc: u64 = 0;
    let mut i: usize = a;
    while i < n
        invariant
            n == chars.len(),
            a <= i <= n,
            a < n,
            a == sign_end(chars@, 0),
            digits_end(chars@, a as int) == n,
            digits == chars@.skip(a as int),
            forall|k: int| a <= k < n ==> is_dec_digit(#[trigger] chars@[k]),
            acc == digits_value(digits.take(i - a)),
        decreases n - i,
    {
        let c = chars[i];
        let d: u64 = (c as u64) - 48;
        proof {
            let t = digits.take(i - a + 1);
            assert(t.drop_last() =~= digits.take(i - a));
            assert(t.last() == c);
            assert(digits_value(t) == acc * 10 + d);
            lemma_digits_value_prefix(digits, i - a + 1);
        }
        let shifted: u64 = match acc.checked_mul(10) {
            Some(m) => m,
            None => {
                return None;
            },
        };
        acc = match shifted.checked_add(d) {
            Some(m) => m,
            None => {
                return None;
            },
        };
        i += 1;
    }
    assert(digits.take(n - a) =~= digits);
    if !negative {
        Some(Number::PosInt(acc))
    } else if acc == 0 {
        Some(Number::PosInt(0))
    } else if acc <= 0x7fff_ffff_ffff_ffff {
        Some(Number::NegInt(-(acc as i64)))
    } else if acc == 0x8000_0000_0000_0000 {
        Some(Number::NegInt(i64::MIN))
    } else {
        None
    }
}

/// Writes the digits of `n`.
pub fn u64_text(n: u64) -> (s: String)
    ensures
        s@ == nat_text(n as nat),
{
    let mut low_first: Vec<char> = Vec::new();
    let mut val: u64 = n;
    while val >= 10
        invariant
            nat_text(n as nat) == nat_text(val as nat) + low_first@.reverse(),
        decreases val,
    {
        let ghost before = low_first@;
        low_first.push(dec_digit_char(val % 10));
        proof {
            assert(low_first@.reverse() =~= seq![dec_digit((val % 10) as nat)] + before.reverse());
            assert(nat_text(val as nat) + before.reverse() =~= nat_text((val / 10) as nat)
                + low_first@.reverse());
        }
        val = val / 10;
    }
    let ghost before = low_first@;
    low_first.push(dec_digit_char(val));
    assert(low_first@.reverse() =~= nat_text(val as nat) + before.reverse());
    reverse_chars(&low_first)
}

/// Writes the decimal text of `i`.
pub fn i64_text(i: i64) -> (s: String)
    ensures
        s@ == int_text(i as int),
{
    if i >= 0 {
        u64_text(i as u64)
    } else {
        let magnitude: u64 = if i == i64::MIN {
            0x8000_0000_0000_0000
        } else {
            (-i) as u64
        };
        let mut s = String::new();
        s.push('-');
        let digits = u64_text(magnitude);
        s.append(digits.as_str());
        assert(s@ =~= seq!['-'] + nat_text(magnitude as nat));
        s
    }
}

} // verus!
