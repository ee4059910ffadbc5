//! Strings as sequences of characters.

use vstd::prelude::*;

verus! {

/// `String::push` of the standard library: appends the one character `ch` to
/// the end of `s` and changes nothing else.
pub assume_specification[ std::string::String::push ](s: &mut std::string::String, ch: char)
    ensures
        final(s)@ == old(s)@.push(ch),
;

/// The characters of `s`, in order.
pub fn chars_of(s: &str) -> (v: Vec<char>)
    ensures
        v@ == s@,
{
    let mut v: Vec<char> = Vec::new();
    for c in it: s.chars()
        invariant
            v@ == it.seq().take(it.index()),
            it.seq() == s@,
    {
        v.push(c);
    }
    v
}

/// The string made of the characters `v[from..to]`.
pub fn string_of(v: &Vec<char>, from: usize, to: usize) -> (s: String)
    requires
        from <= to <= v.len(),
    ensures
        s@ == v@.subrange(from as int, to as int),
{
    let mut s = String::new();
    let mut i: usize = from;
    while i < to
        invariant
            from <= i <= to <= v.len(),
            s@ == v@.subrange(from as int, i as int),
        decreases to - i,
    {
        s.push(v[i]);
        i += 1;
    }
    s
}

/// The characters of `v` from position `from` on.
pub fn tail_of(v: &Vec<char>, from: usize) -> (t: Vec<char>)
    requires
        from <= v.len(),
    ensures
        t@ == v@.skip(from as int),
{
    let mut t: Vec<char> = Vec::new();
    let mut i: usize = from;
    while i < v.len()
        invariant
            from <= i <= v.len(),
            t@ == v@.subrange(from as int, i as int),
        decreases v.len() - i,
    {
        t.push(v[i]);
        i += 1;
    }
    assert(v@.subrange(from as int, v.len() as int) =~= v@.skip(from as int));
    t
}

/// The characters of `v`, last first, as a string.
pub fn reverse_chars(v: &Vec<char>) -> (s: String)
    ensures
        s@ == v@.reverse(),
{
    let mut s = String::new();
    let mut i: usize = v.len();
    while i > 0
        invariant
            i <= v.len(),
            s@ == v@.reverse().take(v.len() - i),
        decreases i,
    {
        i -= 1;
        s.push(v[i]);
        assert(s@ =~= v@.reverse().take(v.len() - i));
    }
    assert(v@.reverse().take(v.len() as int) =~= v@.reverse());
    s
}

/// The pieces of `s` between the occurrences of `sep`.
///
/// There is always at least one piece; a separator at either end leaves an
/// empty piece there.
pub open spec fn split(s: Seq<char>, sep: char) -> Seq<Seq<char>>
    decreases s.len(),
{
    if s.len() == 0 {
        seq![Seq::empty()]
    } else {
        let parts = split(s.drop_last(), sep);
        if s.last() == sep {
            parts.push(Seq::empty())
        } else {
            parts.update(parts.len() - 1, parts.last().push(s.last()))
        }
    }
}

/// Whether `c` occurs nowhere in `s`.
pub open spec fn free_of(s: Seq<char>, c: char) -> bool {
    forall|i: int| 0 <= i < s.len() ==> #[trigger] s[i] != c
}

/// Splitting yields at least one piece.
pub proof fn lemma_split_nonempty(s: Seq<char>, sep: char)
    ensures
        split(s, sep).len() >= 1,
    decreases s.len(),
{
    if s.len() > 0 {
        lemma_split_nonempty(s.drop_last(), sep);
    }
}

/// A text without the separator is its own single piece.
pub proof fn lemma_split_free(s: Seq<char>, sep: char)
    requires
        free_of(s, sep),
    ensures
        split(s, sep) == seq![s],
    decreases s.len(),
{
    if s.len() > 0 {
        lemma_split_free(s.drop_last(), sep);
        assert(split(s, sep) =~= seq![s.drop_last().push(s.last())]);
        assert(s.drop_last().push(s.last()) =~= s);
    } else {
        assert(s =~= Seq::empty());
    }
}

/// Text appended without a separator only lengthens the last piece.
pub proof fn lemma_split_extend(s: Seq<char>, t: Seq<char>, sep: char)
    requires
        free_of(t, sep),
    ensures
        split(s + t, sep) == split(s, sep).update(
            split(s, sep).len() - 1,
            split(s, sep).last() + t,
        ),
    decreases t.len(),
{
    lemma_split_nonempty(s, sep);
    let p = split(s, sep);
    if t.len() == 0 {
        assert(s + t =~= s);
        assert(p.last() + t =~= p.last());
        assert(p.update(p.len() - 1, p.last()) =~= p);
    } else {
        lemma_split_extend(s, t.drop_last(), sep);
        assert((s + t).drop_last() =~= s + t.drop_last());
        assert((s + t).last() == t.last());
        assert((p.last() + t.drop_last()).push(t.last()) =~= p.last() + t);
        let q = split(s + t.drop_last(), sep);
        assert(q.update(q.len() - 1, q.last().push(t.last())) =~= p.update(
            p.len() - 1,
            p.last() + t,
        ));
    }
}

/// A separator followed by a text without one adds that text as a new piece.
pub proof fn lemma_split_append(s: Seq<char>, t: Seq<char>, sep: char)
    requires
        free_of(t, sep),
    ensures
        split(s.push(sep) + t, sep) == split(s, sep).push(t),
{
    let p = split(s, sep);
    assert(s.push(sep).drop_last() =~= s);
    assert(split(s.push(sep), sep) == p.push(Seq::empty()));
    lemma_split_extend(s.push(sep), t, sep);
    assert(Seq::<char>::empty() + t =~= t);
    assert(p.push(Seq::empty()).update(p.len() as int, t) =~= p.push(t));
}

/// Cuts `s` at every `sep`.
pub fn split_text(s: &str, sep: char) -> (parts: Vec<String>)
    ensures
        parts.deep_view() == split(s@, sep),
{
    let mut parts: Vec<String> = Vec::new();
    let mut piece = String::new();
    for c in it: s.chars()
        invariant
            it.seq() == s@,
            split(s@.take(it.index()), sep) == parts.deep_view().push(piece@),
    {
        let ghost i = it.index();
        let ghost before = parts.deep_view();
        let ghost old_piece = piece@;
        proof {
            assert(s@.take(i + 1).drop_last() =~= s@.take(i));
            assert(s@.take(i + 1).last() == c);
        }
        if c == sep {
            parts.push(piece);
            piece = String::new();
            proof {
                assert(parts.deep_view() =~= before.push(old_piece));
            }
        } else {
            piece.push(c);
            proof {
                assert(before.push(old_piece).update(before.len() as int, old_piece.push(c))
                    =~= before.push(piece@));
            }
        }
    }
    let ghost before = parts.deep_view();
    proof {
        assert(s@.take(s@.len() as int) =~= s@);
    }
    parts.push(piece);
    proof {
        assert(parts.deep_view() =~= before.push(piece@));
    }
    parts
}

} // verus!
