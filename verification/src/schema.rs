//! The text under which a list of property names is found again.
//!
//! Each name is written with a backslash before every comma and every
//! backslash of its own, and is followed by a comma. No two lists of names
//! have the same text.

use vstd::prelude::*;
use crate::text::chars_of;

verus! {

/// Whether `c` is written with a backslash before it.
pub open spec fn needs_escape(c: char) -> bool {
    c == ',' || c == '\\'
}

/// The character `c` as it is written inside a name.
pub open spec fn escaped_char(c: char) -> Seq<char> {
    if needs_escape(c) {
        seq!['\\', c]
    } else {
        seq![c]
    }
}

/// The name with a backslash before each of its commas and backslashes.
pub open spec fn escaped(name: Seq<char>) -> Seq<char>
    decreases name.len(),
{
    if name.len() == 0 {
        Seq::empty()
    } else {
        escaped_char(name[0]) + escaped(name.drop_first())
    }
}

/// The text of a list of names: each name escaped and followed by a comma.
pub open spec fn schema_text(names: Seq<Seq<char>>) -> Seq<char>
    decreases names.len(),
{
    if names.len() == 0 {
        Seq::empty()
    } else {
        escaped(names[0]).push(',') + schema_text(names.drop_first())
    }
}

/// Escaping goes character by character.
pub proof fn lemma_escaped_push(name: Seq<char>, c: char)
    ensures
        escaped(name.push(c)) == escaped(name) + escaped_char(c),
    decreases name.len(),
{
    let longer = name.push(c);
    if name.len() == 0 {
        assert(longer.drop_first() =~= Seq::<char>::empty());
        assert(escaped(longer.drop_first()) =~= Seq::<char>::empty());
        assert(escaped(longer) =~= escaped(name) + escaped_char(c));
    } else {
        lemma_escaped_push(name.drop_first(), c);
        assert(longer.drop_first() =~= name.drop_first().push(c));
        assert(escaped(longer) =~= escaped(name) + escaped_char(c));
    }
}

/// The text of a list goes name by name.
pub proof fn lemma_schema_text_push(names: Seq<Seq<char>>, name: Seq<char>)
    ensures
        schema_text(names.push(name)) == schema_text(names) + escaped(name).push(','),
    decreases names.len(),
{
    let longer = names.push(name);
    if names.len() == 0 {
        assert(longer.drop_first() =~= Seq::<Seq<char>>::empty());
        assert(schema_text(longer.drop_first()) =~= Seq::<char>::empty());
        assert(schema_text(longer) =~= schema_text(names) + escaped(name).push(','));
    } else {
        lemma_schema_text_push(names.drop_first(), name);
        assert(longer.drop_first() =~= names.drop_first().push(name));
        assert(schema_text(longer) =~= schema_text(names) + escaped(name).push(','));
    }
}

/// Where two escaped names, each with its comma, begin equal texts, the names
/// are equal and so is what follows them.
pub proof fn lemma_escaped_apart(a: Seq<char>, b: Seq<char>, x: Seq<char>, y: Seq<char>)
    requires
        escaped(a).push(',') + x == escaped(b).push(',') + y,
    ensures
        a == b,
        x == y,
    decreases a.len(),
{
    let l = escaped(a).push(',') + x;
    let r = escaped(b).push(',') + y;
    if a.len() == 0 {
        assert(l[0] == ',');
        if b.len() == 0 {
            assert(x =~= l.skip(1));
            assert(y =~= r.skip(1));
            assert(a =~= b);
        } else {
            assert(r[0] == escaped_char(b[0])[0]);
        }
    } else if b.len() == 0 {
        assert(r[0] == ',');
        assert(l[0] == escaped_char(a[0])[0]);
    } else {
        let ta = escaped(a.drop_first()).push(',') + x;
        let tb = escaped(b.drop_first()).push(',') + y;
        assert(l =~= escaped_char(a[0]) + ta);
        assert(r =~= escaped_char(b[0]) + tb);
        assert(l[0] == escaped_char(a[0])[0]);
        assert(r[0] == escaped_char(b[0])[0]);
        if needs_escape(a[0]) {
            assert(l[1] == a[0]);
            assert(needs_escape(b[0]));
            assert(r[1] == b[0]);
            assert(ta =~= l.skip(2));
            assert(tb =~= r.skip(2));
        } else {
            assert(!needs_escape(b[0]));
            assert(ta =~= l.skip(1));
            assert(tb =~= r.skip(1));
        }
        lemma_escaped_apart(a.drop_first(), b.drop_first(), x, y);
        assert(a =~= seq![a[0]] + a.drop_first());
        assert(b =~= seq![b[0]] + b.drop_first());
    }
}

/// Lists of names with the same text are the same list.
pub proof fn lemma_schema_text_injective(a: Seq<Seq<char>>, b: Seq<Seq<char>>)
    requires
        schema_text(a) == schema_text(b),
    ensures
        a == b,
    decreases a.len(),
{
    if a.len() == 0 {
        if b.len() > 0 {
            assert(schema_text(b).len() >= 1);
        }
        assert(a =~= b);
    } else if b.len() == 0 {
        assert(schema_text(a).len() >= 1);
    } else {
        lemma_escaped_apart(
            a[0],
            b[0],
            schema_text(a.drop_first()),
            schema_text(b.drop_first()),
        );
        lemma_schema_text_injective(a.drop_first(), b.drop_first());
        assert(a =~= seq![a[0]] + a.drop_first());
        assert(b =~= seq![b[0]] + b.drop_first());
    }
}

/// Writes the text under which the names are found again.
pub fn schema_key(names: &Vec<String>) -> (key: String)
    ensures
        key@ == schema_text(names.deep_view()),
{
    let ghost all = names.deep_view();
    let mut key = String::new();
    let mut i: usize = 0;
    proof {
        assert(all.take(0) =~= Seq::<Seq<char>>::empty());
    }
    while i < names.len()
        invariant
            i <= names.len(),
            all == names.deep_view(),
            key@ == schema_text(all.take(i as int)),
        decreases names.len() - i,
    {
        let chars = chars_of(names[i].as_str());
        let ghost before = key@;
        let mut j: usize = 0;
        proof {
            assert(chars@.take(0) =~= Seq::<char>::empty());
            assert(before + escaped(chars@.take(0)) =~= before);
        }
        while j < chars.len()
            invariant
                j <= chars.len(),
                key@ == before + escaped(chars@.take(j as int)),
            decreases chars.len() - j,
        {
            let c = chars[j];
            let ghost written = key@;
            if c == ',' || c == '\\' {
                key.push('\\');
            }
            key.push(c);
            proof {
                lemma_escaped_push(chars@.take(j as int), c);
                assert(chars@.take(j + 1) =~= chars@.take(j as int).push(c));
                assert(key@ =~= written + escaped_char(c));
                assert(key@ =~= before + escaped(chars@.take(j + 1)));
            }
            j += 1;
        }
        key.push(',');
        proof {
            assert(chars@.take(chars.len() as int) =~= chars@);
            lemma_schema_text_push(all.take(i as int), all[i as int]);
            assert(all.take(i + 1) =~= all.take(i as int).push(all[i as int]));
            assert(key@ =~= before + escaped(chars@).push(','));
        }
        i += 1;
    }
    proof {
        assert(all.take(names.len() as int) =~= all);
    }
    key
}

} // verus!
