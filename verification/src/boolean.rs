//! Booleans as the single letters `T` and `F`.

use vstd::prelude::*;
use crate::text::chars_of;

verus! {

/// The letter that stands for `b`.
pub open spec fn bool_letter(b: bool) -> char {
    if b {
        'T'
    } else {
        'F'
    }
}

/// What the text `s` means as a boolean: `F` and the empty text are false,
/// every other text is true.
pub open spec fn letter_bool(s: Seq<char>) -> bool {
    s.len() > 0 && s != seq!['F']
}

/// Reading back a written boolean gives the boolean.
pub proof fn lemma_bool_letter_round_trip(b: bool)
    ensures
        letter_bool(seq![bool_letter(b)]) == b,
{
    if b {
        assert(seq!['T'][0] != seq!['F'][0]);
    }
}

/// Writes `b` as `T` or `F`.
pub fn bool_to_s(b: bool) -> (s: String)
    ensures
        s@ == seq![bool_letter(b)],
{
    let mut s = String::new();
    if b {
        s.push('T');
    } else {
        s.push('F');
    }
    assert(s@ =~= seq![bool_letter(b)]);
    s
}

/// Reads a boolean: `T` is true, `F` is false, and any other text is true
/// unless it is empty.
pub fn s_to_bool(s: &str) -> (b: bool)
    ensures
        b == letter_bool(s@),
{
    let chars = chars_of(s);
    if chars.len() == 0 {
        false
    } else if chars.len() == 1 && chars[0] == 'F' {
        assert(s@ =~= seq!['F']);
        false
    } else {
        assert(s@ != seq!['F']) by {
            if s@.len() == 1 {
                assert(s@[0] != seq!['F'][0]);
            }
        }
        true
    }
}

} // verus!
