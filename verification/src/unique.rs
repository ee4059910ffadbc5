//! A list of names has one entry.
//!
//! In a list that was written by compression, the array of some names is
//! one entry and no other entry decodes to it.

use vstd::prelude::*;
use crate::codec::{decode_items, decode_spec, decode_text, names_entry};
use crate::encode::{encode_str_spec, has_tag, tagged};
use crate::error::Error;
use crate::memory::{array_text, names_tree, with_key};
use crate::number::{index_to_key, key_value};
use crate::refs::{orderly, refers_back, text_refers_back, well_written};
use crate::roundtrip::{chain, lemma_chain_head, lemma_key_plain};
use crate::text::{free_of, lemma_split_nonempty, split};
use crate::value::Tree;

verus! {

/// No piece of a split text holds the separator.
pub proof fn lemma_split_pieces_free(s: Seq<char>, sep: char)
    ensures
        forall|k: int| 0 <= k < split(s, sep).len() ==> free_of(#[trigger] split(s, sep)[k], sep),
    decreases s.len(),
{
    if s.len() > 0 {
        lemma_split_pieces_free(s.drop_last(), sep);
        lemma_split_nonempty(s.drop_last(), sep);
        let before = split(s.drop_last(), sep);
        assert forall|k: int| 0 <= k < split(s, sep).len() implies free_of(
            #[trigger] split(s, sep)[k],
            sep,
        ) by {
            if k < before.len() - 1 {
                assert(split(s, sep)[k] == before[k]);
            } else if k == before.len() - 1 && s.last() != sep {
                assert(free_of(before[k], sep));
            }
        }
    }
}

/// A text is its first piece followed by a pipe and a piece for each
/// further piece.
pub proof fn lemma_chain_of_split(s: Seq<char>)
    ensures
        chain(split(s, '|')[0], split(s, '|').skip(1)) == s,
    decreases s.len(),
{
    let parts = split(s, '|');
    if s.len() == 0 {
        assert(parts.skip(1) =~= Seq::<Seq<char>>::empty());
        assert(s =~= parts[0]);
    } else {
        let front = s.drop_last();
        let before = split(front, '|');
        let rest = before.skip(1);
        lemma_chain_of_split(front);
        lemma_split_nonempty(front, '|');
        if s.last() == '|' {
            let more = parts.skip(1);
            assert(more =~= rest.push(Seq::empty()));
            assert(more.drop_last() =~= rest);
            assert(chain(parts[0], more) =~= front.push('|'));
            assert(front.push('|') =~= s);
        } else if before.len() == 1 {
            assert(rest =~= Seq::<Seq<char>>::empty());
            assert(parts.skip(1) =~= Seq::<Seq<char>>::empty());
            assert(parts[0] == before[0].push(s.last()));
            assert(before[0].push(s.last()) =~= s);
        } else {
            let more = parts.skip(1);
            assert(more =~= rest.update(rest.len() - 1, rest.last().push(s.last())));
            assert(more.drop_last() =~= rest.drop_last());
            assert(chain(parts[0], more) == with_key(
                chain(before[0], rest.drop_last()),
                rest.last().push(s.last()),
            ));
            assert(chain(before[0], rest) == with_key(
                chain(before[0], rest.drop_last()),
                rest.last(),
            ));
            assert(chain(parts[0], more) =~= front.push(s.last()));
            assert(front.push(s.last()) =~= s);
        }
    }
}

/// The first piece of a tagged text is the tag letter.
pub proof fn lemma_tag_is_first_piece(text: Seq<char>, tag: char)
    requires
        has_tag(text, tag),
        tag != '|',
    ensures
        split(text, '|')[0] == seq![tag],
        split(text, '|').len() >= 2,
{
    let parts = split(text, '|');
    lemma_chain_of_split(text);
    lemma_split_pieces_free(text, '|');
    lemma_split_nonempty(text, '|');
    lemma_chain_head(parts[0], parts.skip(1));
    let first = parts[0];
    assert(free_of(first, '|'));
    if first.len() >= 2 {
        assert(text[1] == first[1]);
    }
    if parts.len() == 1 {
        assert(parts.skip(1) =~= Seq::<Seq<char>>::empty());
        assert(text == first);
        assert(first[1] != '|');
    }
    if first.len() == 0 {
        assert(text[0] == '|');
    }
    assert(first.len() == 1);
    assert(first[0] == text[0]);
    assert(first =~= seq![tag]);
}

/// Where the keys from position `i` on decode to elements, there is one
/// element for each key, in order, after those that were there.
pub proof fn lemma_decode_items_each(
    values: Seq<Seq<char>>,
    parts: Seq<Seq<char>>,
    i: int,
    acc: Seq<Tree>,
    depth: nat,
)
    requires
        0 <= i <= parts.len(),
        decode_items(values, parts, i, acc, depth) is Ok,
    ensures
        decode_items(values, parts, i, acc, depth)->Ok_0.len() == acc.len() + parts.len() - i,
        forall|p: int|
            i <= p < parts.len() ==> decode_spec(values, #[trigger] parts[p], depth) == Ok::<
                Tree,
                Error,
            >(decode_items(values, parts, i, acc, depth)->Ok_0[acc.len() + p - i]),
    decreases parts.len() - i,
{
    if i < parts.len() {
        let t = decode_spec(values, parts[i], depth)->Ok_0;
        let longer = acc.push(t);
        let out = decode_items(values, parts, i, acc, depth)->Ok_0;
        lemma_decode_items_each(values, parts, i + 1, longer, depth);
        lemma_decode_items_keep(values, parts, i + 1, longer, depth);
        assert(out == decode_items(values, parts, i + 1, longer, depth)->Ok_0);
        assert forall|p: int| i <= p < parts.len() implies decode_spec(
            values,
            #[trigger] parts[p],
            depth,
        ) == Ok::<Tree, Error>(out[acc.len() + p - i]) by {
            if p == i {
                assert(out[acc.len() as int] == longer[acc.len() as int]);
            } else {
                assert(out[longer.len() + p - (i + 1)] == out[acc.len() + p - i]);
            }
        }
    }
}

/// The elements that were there stay where they are.
proof fn lemma_decode_items_keep(
    values: Seq<Seq<char>>,
    parts: Seq<Seq<char>>,
    i: int,
    acc: Seq<Tree>,
    depth: nat,
)
    requires
        0 <= i <= parts.len(),
        decode_items(values, parts, i, acc, depth) is Ok,
    ensures
        decode_items(values, parts, i, acc, depth)->Ok_0.len() >= acc.len(),
        forall|k: int|
            0 <= k < acc.len() ==> decode_items(values, parts, i, acc, depth)->Ok_0[k] == acc[k],
    decreases parts.len() - i,
{
    if i < parts.len() {
        let t = decode_spec(values, parts[i], depth)->Ok_0;
        lemma_decode_items_keep(values, parts, i + 1, acc.push(t), depth);
        assert forall|k: int| 0 <= k < acc.len() implies decode_items(
            values,
            parts,
            i,
            acc,
            depth,
        )->Ok_0[k] == acc[k] by {
            assert(acc.push(t)[k] == acc[k]);
        }
    }
}

/// The keys of the entries that hold the names as strings.
pub open spec fn name_keys(values: Seq<Seq<char>>, names: Seq<Seq<char>>) -> Seq<Seq<char>> {
    Seq::new(
        names.len(),
        |k: int| index_to_key(values.index_of(encode_str_spec(names[k])) as nat),
    )
}

/// The text of the array of the names, in a list that holds the names as
/// strings.
pub open spec fn names_text(values: Seq<Seq<char>>, names: Seq<Seq<char>>) -> Seq<char> {
    array_text(names.len(), chain(seq!['a'], name_keys(values, names)))
}

/// In an orderly list without repetition, an entry that decodes to the
/// array of some names has the one text that this array has.
pub proof fn lemma_names_entry_text(
    values: Seq<Seq<char>>,
    key: Seq<char>,
    names: Seq<Seq<char>>,
    depth: nat,
)
    requires
        orderly(values),
        values.no_duplicates(),
        names_entry(values, key),
        decode_spec(values, key, depth) == Ok::<Tree, Error>(names_tree(names)),
    ensures
        values[key_value(key) as int] == names_text(values, names),
{
    let at = key_value(key) as int;
    let text = values[at];
    let trees = names_tree(names)->Array_0;
    lemma_key_plain(key_value(key));
    if key == seq!['_'] {
        assert(key[0] == '_');
    }
    let inner = (depth - 1) as nat;
    assert(decode_text(values, text, inner) == Ok::<Tree, Error>(names_tree(names)));
    assert(has_tag(text, 'a'));
    let bare = tagged('a', Seq::<char>::empty());
    if text == bare {
        assert(trees.len() == 0);
    } else {
        let parts = split(text, '|');
        lemma_tag_is_first_piece(text, 'a');
        lemma_chain_of_split(text);
        lemma_decode_items_each(values, parts, 1, Seq::empty(), inner);
        assert(parts.len() == names.len() + 1);
        assert(text_refers_back(text, at));
        let keys = name_keys(values, names);
        assert forall|k: int| 0 <= k < names.len() implies parts.skip(1)[k] == keys[k] by {
            let part = parts[k + 1];
            assert(trees[k] == Tree::String(names[k]));
            assert(decode_spec(values, part, inner) == Ok::<Tree, Error>(trees[k]));
            assert(refers_back(part, at));
            if part == seq!['_'] {
                assert(part[0] == '_');
            }
            let e = key_value(part) as int;
            let held = values[e];
            assert(decode_text(values, held, (inner - 1) as nat) == Ok::<Tree, Error>(
                Tree::String(names[k]),
            ));
            assert(well_written(held));
            assert(held == encode_str_spec(names[k]));
            assert(values.index_of(held) == e);
        }
        assert(parts.skip(1) =~= keys);
        assert(names.len() > 0);
    }
}

/// In an orderly list without repetition, no two entries decode to the
/// array of the same names.
pub proof fn lemma_names_entry_unique(
    values: Seq<Seq<char>>,
    one: Seq<char>,
    other: Seq<char>,
    names: Seq<Seq<char>>,
    depth: nat,
    other_depth: nat,
)
    requires
        orderly(values),
        values.no_duplicates(),
        names_entry(values, one),
        names_entry(values, other),
        decode_spec(values, one, depth) == Ok::<Tree, Error>(names_tree(names)),
        decode_spec(values, other, other_depth) == Ok::<Tree, Error>(names_tree(names)),
    ensures
        one == other,
{
    lemma_names_entry_text(values, one, names, depth);
    lemma_names_entry_text(values, other, names, other_depth);
}

} // verus!
