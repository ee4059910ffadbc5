//! Depth and growth leave decoded trees as they are.
//!
//! What decodes keeps its tree when the list grows at its end and when more
//! depth is allowed. Decoding gives up where more entries would have to be
//! entered, one inside the other, than the list has. Nothing is lost by
//! that: whatever decodes with more depth decodes alike within the length of
//! the list.

use vstd::prelude::*;
use vstd::set_lib::{lemma_int_range, lemma_len_subset, set_int_range};
use crate::codec::{
    assign, decode_array_spec, decode_fields, decode_items, decode_object_spec, decode_spec,
    decode_text, decompress_spec, is_null_key, schema_names,
};
use crate::encode::{has_tag, tagged};
use crate::number::key_value;
use crate::text::split;
use crate::value::Tree;

verus! {

/// A key that decodes keeps its tree when the list grows at its end and when
/// more depth is allowed.
pub proof fn lemma_decode_stable(
    values: Seq<Seq<char>>,
    more: Seq<Seq<char>>,
    key: Seq<char>,
    depth: nat,
    deeper: nat,
)
    requires
        values.is_prefix_of(more),
        depth <= deeper,
        decode_spec(values, key, depth) is Ok,
    ensures
        decode_spec(more, key, deeper) == decode_spec(values, key, depth),
    decreases depth, 0nat, 0nat,
{
    if !is_null_key(key) {
        let at = key_value(key) as int;
        assert(more[at] == values[at]);
        lemma_decode_text_stable(
            values,
            more,
            values[at],
            (depth - 1) as nat,
            (deeper - 1) as nat,
        );
    }
}

/// An encoded value that decodes keeps its tree when the list grows at its
/// end and when more depth is allowed.
pub proof fn lemma_decode_text_stable(
    values: Seq<Seq<char>>,
    more: Seq<Seq<char>>,
    text: Seq<char>,
    depth: nat,
    deeper: nat,
)
    requires
        values.is_prefix_of(more),
        depth <= deeper,
        decode_text(values, text, depth) is Ok,
    ensures
        decode_text(more, text, deeper) == decode_text(values, text, depth),
    decreases depth, 3nat, 0nat,
{
    if has_tag(text, 'b') {
    } else if has_tag(text, 'o') {
        lemma_decode_object_stable(values, more, text, depth, deeper);
    } else if has_tag(text, 'N') {
    } else if has_tag(text, 'n') {
    } else if has_tag(text, 'a') {
        lemma_decode_array_stable(values, more, text, depth, deeper);
    }
}

proof fn lemma_decode_array_stable(
    values: Seq<Seq<char>>,
    more: Seq<Seq<char>>,
    text: Seq<char>,
    depth: nat,
    deeper: nat,
)
    requires
        values.is_prefix_of(more),
        depth <= deeper,
        decode_array_spec(values, text, depth) is Ok,
    ensures
        decode_array_spec(more, text, deeper) == decode_array_spec(values, text, depth),
    decreases depth, 2nat, 0nat,
{
    if text != tagged('a', Seq::empty()) {
        lemma_decode_items_stable(values, more, split(text, '|'), 1, Seq::empty(), depth, deeper);
    }
}

proof fn lemma_decode_items_stable(
    values: Seq<Seq<char>>,
    more: Seq<Seq<char>>,
    parts: Seq<Seq<char>>,
    i: int,
    acc: Seq<Tree>,
    depth: nat,
    deeper: nat,
)
    requires
        values.is_prefix_of(more),
        depth <= deeper,
        decode_items(values, parts, i, acc, depth) is Ok,
    ensures
        decode_items(more, parts, i, acc, deeper) == decode_items(values, parts, i, acc, depth),
    decreases depth, 1nat, (parts.len() - i) as nat,
{
    if 0 <= i < parts.len() {
        lemma_decode_stable(values, more, parts[i], depth, deeper);
        let t = decode_spec(values, parts[i], depth)->Ok_0;
        lemma_decode_items_stable(values, more, parts, i + 1, acc.push(t), depth, deeper);
    }
}

proof fn lemma_decode_object_stable(
    values: Seq<Seq<char>>,
    more: Seq<Seq<char>>,
    text: Seq<char>,
    depth: nat,
    deeper: nat,
)
    requires
        values.is_prefix_of(more),
        depth <= deeper,
        decode_object_spec(values, text, depth) is Ok,
    ensures
        decode_object_spec(more, text, deeper) == decode_object_spec(values, text, depth),
    decreases depth, 2nat, 0nat,
{
    if text != tagged('o', Seq::empty()) {
        let parts = split(text, '|');
        lemma_decode_stable(values, more, parts[1], depth, deeper);
        let names = schema_names(decode_spec(values, parts[1], depth)->Ok_0)->0;
        lemma_decode_fields_stable(values, more, parts, names, 2, Seq::empty(), depth, deeper);
    }
}

proof fn lemma_decode_fields_stable(
    values: Seq<Seq<char>>,
    more: Seq<Seq<char>>,
    parts: Seq<Seq<char>>,
    names: Seq<Seq<char>>,
    i: int,
    acc: Seq<(Seq<char>, Tree)>,
    depth: nat,
    deeper: nat,
)
    requires
        values.is_prefix_of(more),
        depth <= deeper,
        decode_fields(values, parts, names, i, acc, depth) is Ok,
    ensures
        decode_fields(more, parts, names, i, acc, deeper) == decode_fields(
            values,
            parts,
            names,
            i,
            acc,
            depth,
        ),
    decreases depth, 1nat, (parts.len() - i) as nat,
{
    if 2 <= i < parts.len() {
        lemma_decode_stable(values, more, parts[i], depth, deeper);
        let t = decode_spec(values, parts[i], depth)->Ok_0;
        lemma_decode_fields_stable(
            values,
            more,
            parts,
            names,
            i + 1,
            assign(acc, names[i - 2], t),
            depth,
            deeper,
        );
    }
}

/// Whether the encoded value `text` holds keys: it is an array or an object
/// and not the bare tag.
pub open spec fn holds_keys(text: Seq<char>) -> bool {
    (has_tag(text, 'o') && text != tagged('o', Seq::empty())) || (has_tag(text, 'a') && text
        != tagged('a', Seq::empty()))
}

/// Whether every key that the encoded value `text` holds decodes within
/// `depth`.
pub open spec fn keys_decode(values: Seq<Seq<char>>, text: Seq<char>, depth: nat) -> bool {
    holds_keys(text) ==> forall|i: int|
        1 <= i < split(text, '|').len() ==> (#[trigger] decode_spec(
            values,
            split(text, '|')[i],
            depth,
        )) is Ok
}

proof fn lemma_items_keys_decode(
    values: Seq<Seq<char>>,
    parts: Seq<Seq<char>>,
    from: int,
    acc: Seq<Tree>,
    depth: nat,
)
    requires
        0 <= from,
        decode_items(values, parts, from, acc, depth) is Ok,
    ensures
        forall|i: int|
            from <= i < parts.len() ==> (#[trigger] decode_spec(values, parts[i], depth)) is Ok,
    decreases parts.len() - from,
{
    if from < parts.len() {
        let t = decode_spec(values, parts[from], depth)->Ok_0;
        lemma_items_keys_decode(values, parts, from + 1, acc.push(t), depth);
    }
}

proof fn lemma_fields_keys_decode(
    values: Seq<Seq<char>>,
    parts: Seq<Seq<char>>,
    names: Seq<Seq<char>>,
    from: int,
    acc: Seq<(Seq<char>, Tree)>,
    depth: nat,
)
    requires
        2 <= from,
        decode_fields(values, parts, names, from, acc, depth) is Ok,
    ensures
        forall|i: int|
            from <= i < parts.len() ==> (#[trigger] decode_spec(values, parts[i], depth)) is Ok,
    decreases parts.len() - from,
{
    if from < parts.len() {
        let t = decode_spec(values, parts[from], depth)->Ok_0;
        lemma_fields_keys_decode(
            values,
            parts,
            names,
            from + 1,
            assign(acc, names[from - 2], t),
            depth,
        );
    }
}

/// Where an encoded value decodes, every key that it holds decodes.
pub proof fn lemma_keys_decode(values: Seq<Seq<char>>, text: Seq<char>, depth: nat)
    requires
        decode_text(values, text, depth) is Ok,
    ensures
        keys_decode(values, text, depth),
{
    let parts = split(text, '|');
    if has_tag(text, 'o') && text != tagged('o', Seq::empty()) {
        let names = schema_names(decode_spec(values, parts[1], depth)->Ok_0)->0;
        lemma_fields_keys_decode(values, parts, names, 2, Seq::empty(), depth);
    } else if has_tag(text, 'a') && text != tagged('a', Seq::empty()) {
        lemma_items_keys_decode(values, parts, 1, Seq::empty(), depth);
    }
}

proof fn lemma_items_shallower(
    values: Seq<Seq<char>>,
    parts: Seq<Seq<char>>,
    from: int,
    acc: Seq<Tree>,
    less: nat,
    depth: nat,
)
    requires
        0 <= from,
        less <= depth,
        decode_items(values, parts, from, acc, depth) is Ok,
        forall|i: int|
            from <= i < parts.len() ==> (#[trigger] decode_spec(values, parts[i], less)) is Ok,
    ensures
        decode_items(values, parts, from, acc, less) == decode_items(
            values,
            parts,
            from,
            acc,
            depth,
        ),
    decreases parts.len() - from,
{
    if from < parts.len() {
        assert(decode_spec(values, parts[from], less) is Ok);
        lemma_decode_stable(values, values, parts[from], less, depth);
        let t = decode_spec(values, parts[from], depth)->Ok_0;
        lemma_items_shallower(values, parts, from + 1, acc.push(t), less, depth);
    }
}

proof fn lemma_fields_shallower(
    values: Seq<Seq<char>>,
    parts: Seq<Seq<char>>,
    names: Seq<Seq<char>>,
    from: int,
    acc: Seq<(Seq<char>, Tree)>,
    less: nat,
    depth: nat,
)
    requires
        2 <= from,
        less <= depth,
        decode_fields(values, parts, names, from, acc, depth) is Ok,
        forall|i: int|
            from <= i < parts.len() ==> (#[trigger] decode_spec(values, parts[i], less)) is Ok,
    ensures
        decode_fields(values, parts, names, from, acc, less) == decode_fields(
            values,
            parts,
            names,
            from,
            acc,
            depth,
        ),
    decreases parts.len() - from,
{
    if from < parts.len() {
        assert(decode_spec(values, parts[from], less) is Ok);
        lemma_decode_stable(values, values, parts[from], less, depth);
        let t = decode_spec(values, parts[from], depth)->Ok_0;
        lemma_fields_shallower(
            values,
            parts,
            names,
            from + 1,
            assign(acc, names[from - 2], t),
            less,
            depth,
        );
    }
}

/// An encoded value that decodes needs no more depth than the keys that it
/// holds.
pub proof fn lemma_decode_text_shallower(
    values: Seq<Seq<char>>,
    text: Seq<char>,
    less: nat,
    depth: nat,
)
    requires
        less <= depth,
        decode_text(values, text, depth) is Ok,
        keys_decode(values, text, less),
    ensures
        decode_text(values, text, less) == decode_text(values, text, depth),
{
    let parts = split(text, '|');
    if has_tag(text, 'o') && text != tagged('o', Seq::empty()) {
        assert(decode_spec(values, parts[1], less) is Ok);
        lemma_decode_stable(values, values, parts[1], less, depth);
        let names = schema_names(decode_spec(values, parts[1], depth)->Ok_0)->0;
        lemma_fields_shallower(values, parts, names, 2, Seq::empty(), less, depth);
    } else if has_tag(text, 'a') && text != tagged('a', Seq::empty()) {
        lemma_items_shallower(values, parts, 1, Seq::empty(), less, depth);
    }
}

/// Whether entry `at` decodes once `depth` further entries may be entered
/// inside it, and not with less.
pub open spec fn needs(values: Seq<Seq<char>>, at: int, depth: nat) -> bool {
    &&& decode_text(values, values[at], depth) is Ok
    &&& depth > 0 ==> !(decode_text(values, values[at], (depth - 1) as nat) is Ok)
}

/// An entry that decodes needs some depth, no more than it was given.
proof fn lemma_needs_some(values: Seq<Seq<char>>, at: int, depth: nat) -> (least: nat)
    requires
        decode_text(values, values[at], depth) is Ok,
    ensures
        least <= depth,
        needs(values, at, least),
    decreases depth,
{
    if depth > 0 && decode_text(values, values[at], (depth - 1) as nat) is Ok {
        lemma_needs_some(values, at, (depth - 1) as nat)
    } else {
        depth
    }
}

/// An entry that needs some depth stands at the head of a chain of as many
/// further entries, each needing one less than the one before. The entries of
/// the chain all differ, so the list is longer than the depth.
proof fn lemma_needs_chain(values: Seq<Seq<char>>, at: int, depth: nat) -> (chain: Set<int>)
    requires
        0 <= at < values.len(),
        needs(values, at, depth),
    ensures
        chain.finite(),
        chain.len() == depth + 1,
        forall|c: int|
            chain.contains(c) ==> 0 <= c < values.len() && decode_text(values, values[c], depth)
                is Ok,
    decreases depth,
{
    if depth == 0 {
        set![at]
    } else {
        let text = values[at];
        let less = (depth - 1) as nat;
        lemma_keys_decode(values, text, depth);
        if keys_decode(values, text, less) {
            lemma_decode_text_shallower(values, text, less, depth);
        }
        let parts = split(text, '|');
        let i = choose|i: int|
            1 <= i < parts.len() && !((#[trigger] decode_spec(values, parts[i], less)) is Ok);
        let key = parts[i];
        assert(decode_spec(values, key, depth) is Ok);
        let inner = key_value(key) as int;
        let below = lemma_needs_chain(values, inner, less);
        assert forall|c: int| below.contains(c) implies decode_text(values, values[c], depth)
            is Ok by {
            lemma_decode_text_stable(values, values, values[c], less, depth);
        }
        below.insert(at)
    }
}

/// Whatever decodes at some depth decodes alike within the length of the
/// list.
pub proof fn lemma_length_is_depth_enough(values: Seq<Seq<char>>, key: Seq<char>, depth: nat)
    requires
        decode_spec(values, key, depth) is Ok,
    ensures
        decompress_spec(values, key) == decode_spec(values, key, depth),
{
    if depth <= values.len() {
        lemma_decode_stable(values, values, key, depth, values.len());
    } else if !is_null_key(key) {
        let at = key_value(key) as int;
        let least = lemma_needs_some(values, at, (depth - 1) as nat);
        let chain = lemma_needs_chain(values, at, least);
        lemma_int_range(0, values.len() as int);
        assert(chain.subset_of(set_int_range(0, values.len() as int)));
        lemma_len_subset(chain, set_int_range(0, values.len() as int));
        assert(decode_spec(values, key, least + 1) is Ok);
        lemma_decode_stable(values, values, key, least + 1, values.len());
        lemma_decode_stable(values, values, key, least + 1, depth);
    }
}

} // verus!
