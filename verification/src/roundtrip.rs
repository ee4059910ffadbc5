//! Decompression undoes compression.

use vstd::prelude::*;
use vstd::relations::sorted_by;
use vstd::seq_lib::{lemma_sorted_unique, to_multiset_contains};
use crate::codec::{
    assign, compress_spec, decode_fields, decode_items, decode_spec, decode_text, decompress_spec,
    entry_decodes, is_null_key, schema_names,
};
use crate::depth::{lemma_decode_stable, lemma_decode_text_stable, lemma_length_is_depth_enough};
use crate::schema::{lemma_schema_text_injective, schema_text};
use crate::config::Config;
use crate::encode::{
    encode_bool_spec, encode_num_spec, encode_str_spec, lemma_bool_round_trip,
    lemma_num_round_trip, lemma_str_is_no_other_kind, lemma_str_round_trip, tagged,
};
use crate::error::{Error, Special};
use crate::memory::{
    add_fields, add_items, add_name_keys, add_names, add_schema, add_value_spec, array_text,
    empty_store, field_index, intern, lemma_position_of, names_tree, position_of, preserves,
    refuses, schemas_ok, Store, with_key,
};
use crate::number::{index_to_key, is_key, key_value, lemma_key_round_trip};
use crate::order::{
    by_text, canonical_names, lemma_by_text_total, lemma_canonical_names_same, lemma_order_distinct,
};
use crate::text::{free_of, lemma_split_append, lemma_split_free, split};
use crate::value::{all_finite, names_of, Num, Tree, tree_wf};

verus! {

/// The text `head` followed by a pipe and a key for each of `keys`.
pub open spec fn chain(head: Seq<char>, keys: Seq<Seq<char>>) -> Seq<char>
    decreases keys.len(),
{
    if keys.len() == 0 {
        head
    } else {
        with_key(chain(head, keys.drop_last()), keys.last())
    }
}

/// Whether none of `keys` holds a pipe.
pub open spec fn all_plain(keys: Seq<Seq<char>>) -> bool {
    forall|k: int| 0 <= k < keys.len() ==> free_of(#[trigger] keys[k], '|')
}

/// Splitting a chain gives the pieces of its head and then its keys.
pub proof fn lemma_chain_split(head: Seq<char>, keys: Seq<Seq<char>>)
    requires
        all_plain(keys),
    ensures
        split(chain(head, keys), '|') == split(head, '|') + keys,
    decreases keys.len(),
{
    if keys.len() == 0 {
        assert(split(head, '|') + keys =~= split(head, '|'));
    } else {
        let front = keys.drop_last();
        lemma_chain_split(head, front);
        lemma_split_append(chain(head, front), keys.last(), '|');
        assert((split(head, '|') + front).push(keys.last()) =~= split(head, '|') + keys);
    }
}

/// A chain begins with its head, and goes on with a pipe if it has keys.
pub proof fn lemma_chain_head(head: Seq<char>, keys: Seq<Seq<char>>)
    ensures
        head.is_prefix_of(chain(head, keys)),
        keys.len() > 0 ==> chain(head, keys).len() > head.len() && chain(head, keys)[head.len() as int]
            == '|',
    decreases keys.len(),
{
    if keys.len() > 0 {
        lemma_chain_head(head, keys.drop_last());
    }
}

/// The key of a position holds neither a pipe nor an underscore, and is not
/// empty.
pub proof fn lemma_key_plain(n: nat)
    ensures
        free_of(index_to_key(n), '|'),
        !is_null_key(index_to_key(n)),
        index_to_key(n).len() >= 1,
        is_key(index_to_key(n)),
        key_value(index_to_key(n)) == n,
{
    lemma_key_round_trip(n);
    let k = index_to_key(n);
    if k == seq!['_'] {
        assert(k[0] == '_');
    }
}

/// Where every key from position `i` on decodes, the elements are the trees
/// of the keys.
pub proof fn lemma_decode_items_all(
    values: Seq<Seq<char>>,
    parts: Seq<Seq<char>>,
    i: int,
    acc: Seq<Tree>,
    depth: nat,
    trees: Seq<Tree>,
)
    requires
        1 <= i <= parts.len(),
        trees.len() == parts.len() - 1,
        forall|k: int|
            i <= k < parts.len() ==> decode_spec(values, #[trigger] parts[k], depth) == Ok::<
                Tree,
                Error,
            >(trees[k - 1]),
    ensures
        decode_items(values, parts, i, acc, depth) == Ok::<Seq<Tree>, Error>(
            acc + trees.skip(i - 1),
        ),
    decreases parts.len() - i,
{
    if i < parts.len() {
        assert(decode_spec(values, parts[i], depth) == Ok::<Tree, Error>(trees[i - 1]));
        lemma_decode_items_all(values, parts, i + 1, acc.push(trees[i - 1]), depth, trees);
        assert(acc.push(trees[i - 1]) + trees.skip(i) =~= acc + trees.skip(i - 1));
    } else {
        assert(acc + trees.skip(i - 1) =~= acc);
    }
}

/// The properties that the names and trees up to position `n` make.
pub open spec fn paired(names: Seq<Seq<char>>, trees: Seq<Tree>, n: int) -> Seq<(Seq<char>, Tree)> {
    Seq::new(n as nat, |p: int| (names[p], trees[p]))
}

/// Where every key from position `i` on decodes and no name occurs twice,
/// the properties are the names with the trees of the keys.
pub proof fn lemma_decode_fields_all(
    values: Seq<Seq<char>>,
    parts: Seq<Seq<char>>,
    names: Seq<Seq<char>>,
    i: int,
    depth: nat,
    trees: Seq<Tree>,
)
    requires
        2 <= i <= parts.len(),
        trees.len() == parts.len() - 2,
        names.len() == trees.len(),
        names.no_duplicates(),
        forall|k: int|
            i <= k < parts.len() ==> decode_spec(values, #[trigger] parts[k], depth) == Ok::<
                Tree,
                Error,
            >(trees[k - 2]),
    ensures
        decode_fields(values, parts, names, i, paired(names, trees, i - 2), depth) == Ok::<
            Seq<(Seq<char>, Tree)>,
            Error,
        >(paired(names, trees, names.len() as int)),
    decreases parts.len() - i,
{
    if i < parts.len() {
        let acc = paired(names, trees, i - 2);
        let name = names[i - 2];
        assert(decode_spec(values, parts[i], depth) == Ok::<Tree, Error>(trees[i - 2]));
        lemma_position_of(names_of(acc), name);
        let q = position_of(names_of(acc), name);
        if q < acc.len() {
            assert(names_of(acc)[q] == names[q]);
            assert(names[q] == names[i - 2]);
        }
        assert(assign(acc, name, trees[i - 2]) =~= paired(names, trees, i - 1));
        lemma_decode_fields_all(values, parts, names, i + 1, depth, trees);
    }
}

/// Whether `part` holds no pipe and decodes to `tree` in `values`.
pub open spec fn part_decodes(values: Seq<Seq<char>>, part: Seq<char>, tree: Tree) -> bool {
    free_of(part, '|') && decode_spec(values, part, values.len()) == Ok::<Tree, Error>(tree)
}

/// What decodes in a list decodes alike in every list that begins with it.
pub proof fn lemma_part_decodes_stable(
    values: Seq<Seq<char>>,
    more: Seq<Seq<char>>,
    part: Seq<char>,
    tree: Tree,
)
    requires
        values.is_prefix_of(more),
        part_decodes(values, part, tree),
    ensures
        part_decodes(more, part, tree),
{
    lemma_decode_stable(values, more, part, values.len(), more.len());
}

/// An entry that decodes to a tree keeps doing so in every list that begins
/// with this one.
pub proof fn lemma_entry_decodes_stable(
    values: Seq<Seq<char>>,
    more: Seq<Seq<char>>,
    key: Seq<char>,
    tree: Tree,
)
    requires
        values.is_prefix_of(more),
        entry_decodes(values, key, tree),
    ensures
        entry_decodes(more, key, tree),
{
    lemma_decode_stable(values, more, key, values.len(), more.len());
}

/// A key that names an entry holds no pipe and is not empty.
pub proof fn lemma_entry_is_part(values: Seq<Seq<char>>, key: Seq<char>, tree: Tree)
    requires
        entry_decodes(values, key, tree),
    ensures
        part_decodes(values, key, tree),
        key.len() >= 1,
{
    lemma_key_plain(key_value(key));
}

/// Where a text decodes at some depth, in whatever store, the key that it
/// gets decodes to the same tree in the store that then holds it.
pub proof fn lemma_intern_decodes(st: Store, text: Seq<char>, tree: Tree, depth: nat)
    requires
        decode_text(st.values, text, depth) == Ok::<Tree, Error>(tree),
    ensures
        st.values.is_prefix_of(intern(st, text).0.values),
        intern(st, text).0.schemas == st.schemas,
        entry_decodes(intern(st, text).0.values, intern(st, text).1, tree),
{
    let (next, key) = intern(st, text);
    let at = if st.values.contains(text) {
        st.values.index_of(text)
    } else {
        st.values.len() as int
    };
    lemma_key_plain(at as nat);
    assert(next.values[at] == text);
    lemma_decode_text_stable(st.values, next.values, text, depth, depth);
    assert(decode_spec(next.values, key, depth + 1) == Ok::<Tree, Error>(tree));
    lemma_length_is_depth_enough(next.values, key, depth + 1);
}

/// The text of an array whose keys decode is decoded to the array of their
/// trees.
pub proof fn lemma_array_text_decodes(
    values: Seq<Seq<char>>,
    keys: Seq<Seq<char>>,
    trees: Seq<Tree>,
)
    requires
        keys.len() == trees.len(),
        forall|k: int|
            0 <= k < keys.len() ==> part_decodes(values, #[trigger] keys[k], trees[k]) && keys[k].len()
                >= 1,
    ensures
        decode_text(values, array_text(keys.len(), chain(seq!['a'], keys)), values.len()) == Ok::<
            Tree,
            Error,
        >(Tree::Array(trees)),
{
    let bare = tagged('a', Seq::<char>::empty());
    assert(bare =~= seq!['a', '|']);
    if keys.len() == 0 {
        assert(trees =~= Seq::<Tree>::empty());
    } else {
        let text = chain(seq!['a'], keys);
        lemma_chain_head(seq!['a'], keys);
        assert(text[0] == seq!['a'][0]);
        lemma_split_free(seq!['a'], '|');
        lemma_chain_split(seq!['a'], keys);
        let parts = split(text, '|');
        assert(parts =~= seq![seq!['a']] + keys);
        if text == bare {
            lemma_split_append(seq!['a'], Seq::<char>::empty(), '|');
            assert(seq!['a'].push('|') + Seq::<char>::empty() =~= bare);
            assert(parts[1] == keys[0]);
            assert(parts[1] =~= Seq::<char>::empty());
        }
        assert forall|k: int| 1 <= k < parts.len() implies decode_spec(
            values,
            #[trigger] parts[k],
            values.len(),
        ) == Ok::<Tree, Error>(trees[k - 1]) by {
            assert(parts[k] == keys[k - 1]);
        }
        lemma_decode_items_all(values, parts, 1, Seq::empty(), values.len(), trees);
        assert(Seq::<Tree>::empty() + trees.skip(0) =~= trees);
    }
}

/// The text of an object whose schema and keys decode is decoded to the
/// object of the names of the schema with the trees of the keys.
pub proof fn lemma_object_text_decodes(
    values: Seq<Seq<char>>,
    schema: Seq<char>,
    names: Seq<Seq<char>>,
    keys: Seq<Seq<char>>,
    trees: Seq<Tree>,
)
    requires
        part_decodes(values, schema, names_tree(names)),
        schema.len() >= 1,
        names.len() == keys.len(),
        trees.len() == keys.len(),
        names.no_duplicates(),
        forall|k: int| 0 <= k < keys.len() ==> part_decodes(values, #[trigger] keys[k], trees[k]),
    ensures
        decode_text(values, chain(tagged('o', schema), keys), values.len()) == Ok::<Tree, Error>(
            Tree::Object(paired(names, trees, names.len() as int)),
        ),
{
    let head = tagged('o', schema);
    let text = chain(head, keys);
    let bare = tagged('o', Seq::<char>::empty());
    assert(bare.len() == 2);
    lemma_chain_head(head, keys);
    assert(text[0] == head[0] && text[1] == head[1]);
    assert(text.len() >= head.len());
    lemma_split_free(seq!['o'], '|');
    lemma_split_append(seq!['o'], schema, '|');
    assert(seq!['o'].push('|') + schema =~= head);
    lemma_chain_split(head, keys);
    let parts = split(text, '|');
    assert(parts =~= seq![seq!['o'], schema] + keys);
    assert(parts[1] == schema);
    let listed = names_tree(names)->Array_0;
    assert forall|i: int| 0 <= i < listed.len() implies (#[trigger] listed[i]) is String by {}
    assert(listed.map_values(|x: Tree| x->String_0) =~= names);
    assert(schema_names(names_tree(names)) == Some(names));
    assert forall|k: int| 2 <= k < parts.len() implies decode_spec(
        values,
        #[trigger] parts[k],
        values.len(),
    ) == Ok::<Tree, Error>(trees[k - 2]) by {
        assert(parts[k] == keys[k - 2]);
    }
    assert(paired(names, trees, 0) =~= Seq::<(Seq<char>, Tree)>::empty());
    lemma_decode_fields_all(values, parts, names, 2, values.len(), trees);
}

/// The text of a string is decoded to the string.
pub proof fn lemma_str_text_decodes(values: Seq<Seq<char>>, s: Seq<char>, depth: nat)
    ensures
        decode_text(values, encode_str_spec(s), depth) == Ok::<Tree, Error>(Tree::String(s)),
{
    lemma_str_is_no_other_kind(s);
    lemma_str_round_trip(s);
}

/// Adding names as strings gives each name a key that decodes to it.
pub proof fn lemma_add_name_keys(st: Store, names: Seq<Seq<char>>, i: int, keys: Seq<Seq<char>>) -> (all:
    Seq<Seq<char>>)
    requires
        0 <= i <= names.len(),
        keys.len() == i,
        forall|k: int|
            0 <= k < i ==> part_decodes(st.values, #[trigger] keys[k], Tree::String(names[k]))
                && keys[k].len() >= 1,
    ensures
        st.values.is_prefix_of(add_name_keys(st, names, i, chain(seq!['a'], keys)).0.values),
        add_name_keys(st, names, i, chain(seq!['a'], keys)).0.schemas == st.schemas,
        add_name_keys(st, names, i, chain(seq!['a'], keys)).1 == chain(seq!['a'], all),
        all.len() == names.len(),
        forall|k: int|
            0 <= k < names.len() ==> part_decodes(
                add_name_keys(st, names, i, chain(seq!['a'], keys)).0.values,
                #[trigger] all[k],
                Tree::String(names[k]),
            ) && all[k].len() >= 1,
    decreases names.len() - i,
{
    if i < names.len() {
        let text = encode_str_spec(names[i]);
        lemma_str_text_decodes(st.values, names[i], st.values.len());
        lemma_intern_decodes(st, text, Tree::String(names[i]), st.values.len());
        let (next, key) = intern(st, text);
        lemma_entry_is_part(next.values, key, Tree::String(names[i]));
        let longer = keys.push(key);
        assert(longer.drop_last() =~= keys);
        assert(chain(seq!['a'], longer) == with_key(chain(seq!['a'], keys), key));
        assert forall|k: int| 0 <= k < i + 1 implies part_decodes(
            next.values,
            #[trigger] longer[k],
            Tree::String(names[k]),
        ) && longer[k].len() >= 1 by {
            if k < i {
                lemma_part_decodes_stable(st.values, next.values, keys[k], Tree::String(names[k]));
            }
        }
        lemma_add_name_keys(next, names, i + 1, longer)
    } else {
        keys
    }
}

/// Adding the array of some names gives a key that decodes to the array of
/// the names.
pub proof fn lemma_add_names_decodes(st: Store, names: Seq<Seq<char>>)
    ensures
        st.values.is_prefix_of(add_names(st, names).0.values),
        add_names(st, names).0.schemas == st.schemas,
        entry_decodes(add_names(st, names).0.values, add_names(st, names).1, names_tree(names)),
{
    let none = Seq::<Seq<char>>::empty();
    assert(chain(seq!['a'], none) == seq!['a']);
    let all = lemma_add_name_keys(st, names, 0, none);
    let (filled, acc) = add_name_keys(st, names, 0, seq!['a']);
    let trees = names_tree(names)->Array_0;
    assert forall|k: int| 0 <= k < all.len() implies part_decodes(
        filled.values,
        #[trigger] all[k],
        trees[k],
    ) && all[k].len() >= 1 by {
        assert(trees[k] == Tree::String(names[k]));
    }
    lemma_array_text_decodes(filled.values, all, trees);
    lemma_intern_decodes(
        filled,
        array_text(names.len(), acc),
        names_tree(names),
        filled.values.len(),
    );
}

/// The tree with the properties of every object in the order of its schema:
/// sorted by name if `sort` is set, else as they are.
pub open spec fn canonical(t: Tree, sort: bool) -> Tree
    decreases t,
{
    match t {
        Tree::Array(items) => Tree::Array(
            Seq::new(
                items.len(),
                |i: int|
                    if 0 <= i < items.len() {
                        canonical(items[i], sort)
                    } else {
                        Tree::Null
                    },
            ),
        ),
        Tree::Object(entries) => {
            let order = canonical_names(names_of(entries), sort);
            Tree::Object(
                Seq::new(
                    order.len(),
                    |p: int|
                        {
                            let q = field_index(entries, order, sort, p);
                            let child = if 0 <= q < entries.len() {
                                canonical(entries[q].1, sort)
                            } else {
                                Tree::Null
                            };
                            (order[p], child)
                        },
                ),
            )
        },
        _ => t,
    }
}

/// With the names in their own order, every tree is canonical.
pub proof fn lemma_canonical_unsorted(t: Tree)
    ensures
        canonical(t, false) == t,
    decreases t,
{
    match t {
        Tree::Array(items) => {
            assert forall|i: int| 0 <= i < items.len() implies canonical(items[i], false)
                == items[i] by {
                lemma_canonical_unsorted(items[i]);
            }
            assert(canonical(t, false)->Array_0 =~= items);
        },
        Tree::Object(entries) => {
            assert forall|i: int| 0 <= i < entries.len() implies canonical(entries[i].1, false)
                == entries[i].1 by {
                lemma_canonical_unsorted(entries[i].1);
            }
            assert(canonical(t, false)->Object_0 =~= entries);
        },
        _ => {},
    }
}

/// Whether every object of the tree has its properties sorted by name.
pub open spec fn names_sorted(t: Tree) -> bool
    decreases t,
{
    match t {
        Tree::Array(items) => forall|i: int|
            0 <= i < items.len() ==> names_sorted(#[trigger] items[i]),
        Tree::Object(entries) => sorted_by(names_of(entries), by_text()) && forall|i: int|
            0 <= i < entries.len() ==> names_sorted((#[trigger] entries[i]).1),
        _ => true,
    }
}

/// A well-formed tree whose objects have their properties sorted by name is
/// canonical, whether names are sorted or not.
pub proof fn lemma_canonical_sorted(t: Tree, sort: bool)
    requires
        tree_wf(t),
        names_sorted(t),
    ensures
        canonical(t, sort) == t,
    decreases t,
{
    match t {
        Tree::Array(items) => {
            assert forall|i: int| 0 <= i < items.len() implies canonical(items[i], sort)
                == items[i] by {
                lemma_canonical_sorted(items[i], sort);
            }
            assert(canonical(t, sort)->Array_0 =~= items);
        },
        Tree::Object(entries) => {
            let names = names_of(entries);
            let order = canonical_names(names, sort);
            lemma_canonical_names_same(names, sort);
            if sort {
                lemma_by_text_total();
                lemma_sorted_unique(order, names, by_text());
            }
            assert(order =~= names);
            assert forall|p: int| 0 <= p < entries.len() implies canonical(t, sort)->Object_0[p]
                == entries[p] by {
                lemma_position_of(names, names[p]);
                let q = position_of(names, names[p]);
                assert(names[q] == names[p]);
                assert(q == p);
                lemma_canonical_sorted(entries[p].1, sort);
            }
            assert(canonical(t, sort)->Object_0 =~= entries);
        },
        _ => {},
    }
}

/// The tree that the `p`-th name of the schema gets.
pub open spec fn field_tree(
    entries: Seq<(Seq<char>, Tree)>,
    order: Seq<Seq<char>>,
    sort: bool,
    p: int,
) -> Tree {
    let q = field_index(entries, order, sort, p);
    if 0 <= q < entries.len() {
        canonical(entries[q].1, sort)
    } else {
        Tree::Null
    }
}

/// Recorded schemas keep leading to their names when the list grows.
pub proof fn lemma_schemas_ok_stable(st: Store, next: Store)
    requires
        schemas_ok(st),
        st.values.is_prefix_of(next.values),
        next.schemas == st.schemas,
    ensures
        schemas_ok(next),
{
    assert forall|names: Seq<Seq<char>>|
        next.schemas.contains_key(#[trigger] schema_text(names)) implies entry_decodes(
        next.values,
        next.schemas[schema_text(names)],
        names_tree(names),
    ) by {
        lemma_entry_decodes_stable(
            st.values,
            next.values,
            st.schemas[schema_text(names)],
            names_tree(names),
        );
    }
}

/// Adding a text that decodes keeps the recorded schemas leading to their
/// names, and gives a key that decodes to the tree of the text.
pub proof fn lemma_intern_sound(st: Store, text: Seq<char>, tree: Tree, depth: nat)
    requires
        schemas_ok(st),
        decode_text(st.values, text, depth) == Ok::<Tree, Error>(tree),
    ensures
        schemas_ok(intern(st, text).0),
        st.values.is_prefix_of(intern(st, text).0.values),
        entry_decodes(intern(st, text).0.values, intern(st, text).1, tree),
        part_decodes(intern(st, text).0.values, intern(st, text).1, tree),
        intern(st, text).1.len() >= 1,
{
    lemma_intern_decodes(st, text, tree, depth);
    lemma_schemas_ok_stable(st, intern(st, text).0);
    lemma_entry_is_part(intern(st, text).0.values, intern(st, text).1, tree);
}

/// Adding a schema keeps the recorded schemas leading to their names, and
/// gives a key that decodes to the names of the schema in their order.
pub proof fn lemma_add_schema_decodes(st: Store, names: Seq<Seq<char>>, cfg: Config)
    requires
        schemas_ok(st),
    ensures
        schemas_ok(add_schema(st, names, cfg).0),
        st.values.is_prefix_of(add_schema(st, names, cfg).0.values),
        entry_decodes(
            add_schema(st, names, cfg).0.values,
            add_schema(st, names, cfg).1,
            names_tree(canonical_names(names, cfg.sort_key)),
        ),
{
    let order = canonical_names(names, cfg.sort_key);
    let text = schema_text(order);
    if !st.schemas.contains_key(text) {
        lemma_add_names_decodes(st, order);
        let (filled, key) = add_names(st, order);
        let next = add_schema(st, names, cfg).0;
        lemma_schemas_ok_stable(st, filled);
        assert forall|other: Seq<Seq<char>>|
            next.schemas.contains_key(#[trigger] schema_text(other)) implies entry_decodes(
            next.values,
            next.schemas[schema_text(other)],
            names_tree(other),
        ) by {
            if schema_text(other) == text {
                lemma_schema_text_injective(other, order);
            } else {
                assert(filled.schemas.contains_key(schema_text(other)));
            }
        }
    }
}

/// Adding a well-formed tree of finite numbers never fails, in whatever
/// store, and gives a key that decodes to the canonical tree. Recorded
/// schemas that led to their names before still do so.
pub proof fn lemma_add_value_decodes(st: Store, t: Tree, cfg: Config)
    requires
        schemas_ok(st),
        tree_wf(t),
        all_finite(t),
    ensures
        add_value_spec(st, t, cfg).1 is Ok,
        schemas_ok(add_value_spec(st, t, cfg).0),
        st.values.is_prefix_of(add_value_spec(st, t, cfg).0.values),
        part_decodes(
            add_value_spec(st, t, cfg).0.values,
            add_value_spec(st, t, cfg).1->Ok_0,
            canonical(t, cfg.sort_key),
        ),
        !(t is Null) ==> add_value_spec(st, t, cfg).1->Ok_0.len() >= 1,
    decreases t, 0nat,
{
    let sort = cfg.sort_key;
    let depth = st.values.len();
    match t {
        Tree::Null => {},
        Tree::Bool(b) => {
            lemma_bool_round_trip(b);
            lemma_intern_sound(st, encode_bool_spec(b), t, depth);
        },
        Tree::Number(n) => {
            lemma_num_round_trip(n);
            lemma_intern_sound(st, encode_num_spec(n), t, depth);
        },
        Tree::String(s) => {
            lemma_str_text_decodes(st.values, s, depth);
            lemma_intern_sound(st, encode_str_spec(s), t, depth);
        },
        Tree::Array(items) => {
            let none = Seq::<Seq<char>>::empty();
            assert(chain(seq!['a'], none) == seq!['a']);
            let all = lemma_add_items_decode(st, items, 0, none, cfg);
            let (filled, acc) = add_items(st, items, 0, seq!['a'], cfg);
            let trees = canonical(t, sort)->Array_0;
            lemma_array_text_decodes(filled.values, all, trees);
            lemma_intern_sound(
                filled,
                array_text(items.len(), acc->Ok_0),
                canonical(t, sort),
                filled.values.len(),
            );
        },
        Tree::Object(entries) => {
            let names = names_of(entries);
            let order = canonical_names(names, sort);
            lemma_order_distinct(names, sort);
            if entries.len() == 0 {
                let bare = tagged('o', Seq::<char>::empty());
                assert(bare.len() == 2 && bare[0] == 'o' && bare[1] == '|');
                assert(canonical(t, sort)->Object_0 =~= Seq::<(Seq<char>, Tree)>::empty());
                lemma_intern_sound(st, bare, canonical(t, sort), depth);
            } else {
                lemma_add_schema_decodes(st, names, cfg);
                let (shared, schema) = add_schema(st, names, cfg);
                lemma_entry_is_part(shared.values, schema, names_tree(order));
                let head = tagged('o', schema);
                let none = Seq::<Seq<char>>::empty();
                assert(chain(head, none) == head);
                let all = lemma_add_fields_decode(shared, entries, order, 0, none, schema, cfg);
                let (filled, acc) = add_fields(shared, entries, order, 0, head, cfg);
                let trees = Seq::new(order.len(), |p: int| field_tree(entries, order, sort, p));
                lemma_part_decodes_stable(shared.values, filled.values, schema, names_tree(order));
                lemma_object_text_decodes(filled.values, schema, order, all, trees);
                assert(paired(order, trees, order.len() as int) =~= canonical(t, sort)->Object_0);
                lemma_intern_sound(filled, acc->Ok_0, canonical(t, sort), filled.values.len());
            }
        },
    }
}

proof fn lemma_add_items_decode(
    st: Store,
    items: Seq<Tree>,
    i: int,
    keys: Seq<Seq<char>>,
    cfg: Config,
) -> (all: Seq<Seq<char>>)
    requires
        schemas_ok(st),
        0 <= i <= items.len(),
        keys.len() == i,
        forall|k: int|
            0 <= k < items.len() ==> tree_wf(#[trigger] items[k]) && all_finite(items[k]),
        forall|k: int|
            0 <= k < i ==> part_decodes(
                st.values,
                #[trigger] keys[k],
                canonical(items[k], cfg.sort_key),
            ) && keys[k].len() >= 1,
    ensures
        add_items(st, items, i, chain(seq!['a'], keys), cfg).1 == Ok::<Seq<char>, Error>(
            chain(seq!['a'], all),
        ),
        all.len() == items.len(),
        schemas_ok(add_items(st, items, i, chain(seq!['a'], keys), cfg).0),
        st.values.is_prefix_of(add_items(st, items, i, chain(seq!['a'], keys), cfg).0.values),
        forall|k: int|
            0 <= k < items.len() ==> part_decodes(
                add_items(st, items, i, chain(seq!['a'], keys), cfg).0.values,
                #[trigger] all[k],
                canonical(items[k], cfg.sort_key),
            ) && all[k].len() >= 1,
    decreases items, items.len() - i,
{
    if i < items.len() {
        let sort = cfg.sort_key;
        let item = items[i];
        let (next, key) = if item is Null {
            (st, Ok::<Seq<char>, Error>(seq!['_']))
        } else {
            add_value_spec(st, item, cfg)
        };
        if item is Null {
            assert(seq!['_'].len() == 1 && seq!['_'][0] == '_');
        } else {
            lemma_add_value_decodes(st, item, cfg);
        }
        let k1 = key->Ok_0;
        let longer = keys.push(k1);
        assert(longer.drop_last() =~= keys);
        assert(chain(seq!['a'], longer) == with_key(chain(seq!['a'], keys), k1));
        assert forall|k: int| 0 <= k < i + 1 implies part_decodes(
            next.values,
            #[trigger] longer[k],
            canonical(items[k], sort),
        ) && longer[k].len() >= 1 by {
            if k < i {
                lemma_part_decodes_stable(
                    st.values,
                    next.values,
                    keys[k],
                    canonical(items[k], sort),
                );
            }
        }
        lemma_add_items_decode(next, items, i + 1, longer, cfg)
    } else {
        keys
    }
}

proof fn lemma_add_fields_decode(
    st: Store,
    entries: Seq<(Seq<char>, Tree)>,
    order: Seq<Seq<char>>,
    p: int,
    keys: Seq<Seq<char>>,
    schema: Seq<char>,
    cfg: Config,
) -> (all: Seq<Seq<char>>)
    requires
        schemas_ok(st),
        0 <= p <= order.len(),
        keys.len() == p,
        forall|k: int|
            0 <= k < entries.len() ==> tree_wf((#[trigger] entries[k]).1) && all_finite(
                entries[k].1,
            ),
        forall|k: int|
            0 <= k < p ==> part_decodes(
                st.values,
                #[trigger] keys[k],
                field_tree(entries, order, cfg.sort_key, k),
            ),
    ensures
        add_fields(st, entries, order, p, chain(tagged('o', schema), keys), cfg).1 == Ok::<
            Seq<char>,
            Error,
        >(chain(tagged('o', schema), all)),
        all.len() == order.len(),
        schemas_ok(add_fields(st, entries, order, p, chain(tagged('o', schema), keys), cfg).0),
        st.values.is_prefix_of(
            add_fields(st, entries, order, p, chain(tagged('o', schema), keys), cfg).0.values,
        ),
        forall|k: int|
            0 <= k < order.len() ==> part_decodes(
                add_fields(st, entries, order, p, chain(tagged('o', schema), keys), cfg).0.values,
                #[trigger] all[k],
                field_tree(entries, order, cfg.sort_key, k),
            ),
    decreases entries, order.len() - p,
{
    if p < order.len() {
        let sort = cfg.sort_key;
        let head = tagged('o', schema);
        let q = field_index(entries, order, sort, p);
        let (next, key) = if 0 <= q < entries.len() {
            add_value_spec(st, entries[q].1, cfg)
        } else {
            (st, Ok::<Seq<char>, Error>(Seq::empty()))
        };
        if 0 <= q < entries.len() {
            lemma_add_value_decodes(st, entries[q].1, cfg);
        }
        let k1 = key->Ok_0;
        let longer = keys.push(k1);
        assert(longer.drop_last() =~= keys);
        assert(chain(head, longer) == with_key(chain(head, keys), k1));
        assert forall|k: int| 0 <= k < p + 1 implies part_decodes(
            next.values,
            #[trigger] longer[k],
            field_tree(entries, order, sort, k),
        ) by {
            if k < p {
                lemma_part_decodes_stable(
                    st.values,
                    next.values,
                    keys[k],
                    field_tree(entries, order, sort, k),
                );
            }
        }
        lemma_add_fields_decode(next, entries, order, p + 1, longer, schema, cfg)
    } else {
        keys
    }
}

/// The canonical form of an object has the same properties: each name once,
/// with the canonical form of its value, and in sorted order if `sort` is set.
pub proof fn lemma_canonical_fields(entries: Seq<(Seq<char>, Tree)>, sort: bool, q: int)
    requires
        names_of(entries).no_duplicates(),
        0 <= q < entries.len(),
    ensures
        canonical(Tree::Object(entries), sort) is Object,
        ({
            let fields = canonical(Tree::Object(entries), sort)->Object_0;
            let p = position_of(names_of(fields), entries[q].0);
            &&& fields.len() == entries.len()
            &&& names_of(fields).no_duplicates()
            &&& sort ==> sorted_by(names_of(fields), by_text())
            &&& 0 <= p < fields.len()
            &&& fields[p] == (entries[q].0, canonical(entries[q].1, sort))
        }),
{
    let names = names_of(entries);
    let order = canonical_names(names, sort);
    let fields = canonical(Tree::Object(entries), sort)->Object_0;
    lemma_order_distinct(names, sort);
    lemma_canonical_names_same(names, sort);
    assert(names_of(fields) =~= order);
    assert(names[q] == entries[q].0);
    assert(order.contains(names[q])) by {
        to_multiset_contains(names, names[q]);
        to_multiset_contains(order, names[q]);
    }
    lemma_position_of(order, names[q]);
    let p = position_of(order, names[q]);
    lemma_position_of(names, order[p]);
    let back = position_of(names, order[p]);
    assert(names[back] == names[q]);
    assert(back == q);
}

/// Decompressing what compression gave returns the tree.
///
/// This holds of every well-formed tree whose numbers are finite, under all
/// options. The very same tree comes back unless `sort_key` is set and some
/// object has its properties in another order than by name: such an object
/// comes back with the same properties, sorted by name.
pub proof fn lemma_round_trip(t: Tree, cfg: Config)
    requires
        tree_wf(t),
        all_finite(t),
    ensures
        compress_spec(t, cfg) is Ok,
        decompress_spec(compress_spec(t, cfg)->Ok_0.0, compress_spec(t, cfg)->Ok_0.1) == Ok::<
            Tree,
            Error,
        >(canonical(t, cfg.sort_key)),
        !cfg.sort_key || names_sorted(t) ==> decompress_spec(
            compress_spec(t, cfg)->Ok_0.0,
            compress_spec(t, cfg)->Ok_0.1,
        ) == Ok::<Tree, Error>(t),
{
    lemma_add_value_decodes(empty_store(), t, cfg);
    lemma_canonical_unsorted(t);
    if names_sorted(t) {
        lemma_canonical_sorted(t, cfg.sort_key);
    }
}

/// A special number that the options neither preserve nor refuse takes no
/// entry and comes back as null.
pub proof fn lemma_special_becomes_null(x: Special, cfg: Config)
    requires
        !preserves(cfg, x),
        !refuses(cfg, x),
    ensures
        compress_spec(Tree::Number(Num::Special(x)), cfg) == Ok::<
            (Seq<Seq<char>>, Seq<char>),
            Error,
        >((Seq::empty(), Seq::empty())),
        decompress_spec(Seq::empty(), Seq::empty()) == Ok::<Tree, Error>(Tree::Null),
{
}

} // verus!
