//! Every value and every schema is stored once.

use vstd::prelude::*;
use crate::codec::{compress_spec, entry_decodes, names_entry};
use crate::config::Config;
use crate::encode::{
    encode_bool_spec, encode_num_spec, encode_special_spec, encode_str_spec, tagged,
};
use crate::error::Error;
use crate::memory::{
    add_fields, add_items, add_name_keys, add_names, add_schema, add_value_spec, array_text,
    empty_store, field_index, intern, names_tree, preserves, schemas_ok, Store, with_key,
};
use crate::number::{index_to_key, key_value};
use crate::refs::{lemma_add_value_back, lemma_intern_names_entry};
use crate::unique::lemma_names_entry_unique;
use crate::roundtrip::{
    chain, lemma_add_names_decodes, lemma_add_schema_decodes, lemma_entry_decodes_stable,
    lemma_key_plain,
};
use crate::order::{canonical_names, lemma_canonical_names_same};
use crate::schema::schema_text;
use crate::value::{names_of, Num, Tree};

verus! {

/// Whether `later` holds all that `st` holds, each entry under the same key
/// and each schema under the same names, and holds no entry twice.
pub open spec fn extends(st: Store, later: Store) -> bool {
    &&& st.values.is_prefix_of(later.values)
    &&& st.schemas.submap_of(later.schemas)
    &&& later.values.no_duplicates()
}

/// Growing is transitive.
pub proof fn lemma_extends_transitive(a: Store, b: Store, c: Store)
    requires
        extends(a, b),
        extends(b, c),
    ensures
        extends(a, c),
{
    assert(a.values.is_prefix_of(c.values));
    assert forall|k: Seq<char>| a.schemas.dom().contains(k) implies #[trigger] c.schemas.dom().contains(
        k,
    ) && a.schemas[k] == c.schemas[k] by {
        assert(b.schemas.dom().contains(k));
    }
}

/// Adding an encoded value keeps what the store held, adds nothing twice,
/// and leaves the value in the store.
pub proof fn lemma_intern_grows(st: Store, text: Seq<char>)
    requires
        st.values.no_duplicates(),
    ensures
        extends(st, intern(st, text).0),
        intern(st, text).0.values.contains(text),
        intern(st, text).1 == index_to_key(intern(st, text).0.values.index_of(text) as nat),
{
    let next = intern(st, text).0;
    if st.values.contains(text) {
    } else {
        assert(next.values[st.values.len() as int] == text);
        let j = next.values.index_of(text);
        if j < st.values.len() {
            assert(st.values[j] == text);
        }
    }
}

/// An encoded value that was added keeps its key in every later store, and
/// adding it again changes nothing.
pub proof fn lemma_intern_again(st: Store, later: Store, text: Seq<char>)
    requires
        st.values.no_duplicates(),
        extends(intern(st, text).0, later),
    ensures
        intern(later, text) == (later, intern(st, text).1),
{
    lemma_intern_grows(st, text);
    let done = intern(st, text).0;
    let j = done.values.index_of(text);
    assert(later.values[j] == text);
}

/// Adding names as strings only adds to the store.
pub proof fn lemma_add_name_keys_grows(st: Store, names: Seq<Seq<char>>, i: int, acc: Seq<char>)
    requires
        st.values.no_duplicates(),
    ensures
        extends(st, add_name_keys(st, names, i, acc).0),
    decreases names.len() - i,
{
    if 0 <= i < names.len() {
        let (next, key) = intern(st, encode_str_spec(names[i]));
        lemma_intern_grows(st, encode_str_spec(names[i]));
        lemma_add_name_keys_grows(next, names, i + 1, with_key(acc, key));
        lemma_extends_transitive(st, next, add_name_keys(st, names, i, acc).0);
    }
}

/// Adding a schema only adds to the store, and leaves the names recorded.
pub proof fn lemma_add_schema_grows(st: Store, names: Seq<Seq<char>>, cfg: Config)
    requires
        st.values.no_duplicates(),
    ensures
        extends(st, add_schema(st, names, cfg).0),
        add_schema(st, names, cfg).0.schemas.contains_key(
            schema_text(canonical_names(names, cfg.sort_key)),
        ),
        add_schema(st, names, cfg).0.schemas[schema_text(canonical_names(names, cfg.sort_key))]
            == add_schema(st, names, cfg).1,
{
    let order = canonical_names(names, cfg.sort_key);
    if !st.schemas.contains_key(schema_text(order)) {
        lemma_add_name_keys_grows(st, order, 0, seq!['a']);
        let (filled, acc) = add_name_keys(st, order, 0, seq!['a']);
        lemma_intern_grows(filled, array_text(order.len(), acc));
        lemma_extends_transitive(st, filled, add_names(st, order).0);
    }
}

/// Adding a tree only adds to the store: what was there keeps its key, and
/// no encoded value is stored twice.
pub proof fn lemma_add_value_grows(st: Store, t: Tree, cfg: Config)
    requires
        st.values.no_duplicates(),
    ensures
        extends(st, add_value_spec(st, t, cfg).0),
    decreases t, 0nat,
{
    match t {
        Tree::Null => {},
        Tree::Bool(b) => {
            lemma_intern_grows(st, encode_bool_spec(b));
        },
        Tree::Number(Num::Special(x)) => {
            lemma_intern_grows(st, encode_special_spec(x));
        },
        Tree::Number(n) => {
            lemma_intern_grows(st, encode_num_spec(n));
        },
        Tree::String(s) => {
            lemma_intern_grows(st, encode_str_spec(s));
        },
        Tree::Array(items) => {
            lemma_add_items_grows(st, items, 0, seq!['a'], cfg);
            let (filled, acc) = add_items(st, items, 0, seq!['a'], cfg);
            if acc is Ok {
                lemma_intern_grows(filled, array_text(items.len(), acc->Ok_0));
                lemma_extends_transitive(st, filled, add_value_spec(st, t, cfg).0);
            }
        },
        Tree::Object(entries) => {
            if entries.len() == 0 {
                lemma_intern_grows(st, tagged('o', Seq::empty()));
            } else {
                let order = canonical_names(names_of(entries), cfg.sort_key);
                lemma_add_schema_grows(st, names_of(entries), cfg);
                let (shared, schema) = add_schema(st, names_of(entries), cfg);
                lemma_add_fields_grows(shared, entries, order, 0, tagged('o', schema), cfg);
                let (filled, acc) = add_fields(shared, entries, order, 0, tagged('o', schema), cfg);
                lemma_extends_transitive(st, shared, filled);
                if acc is Ok {
                    lemma_intern_grows(filled, acc->Ok_0);
                    lemma_extends_transitive(st, filled, add_value_spec(st, t, cfg).0);
                }
            }
        },
    }
}

proof fn lemma_add_items_grows(st: Store, items: Seq<Tree>, i: int, acc: Seq<char>, cfg: Config)
    requires
        st.values.no_duplicates(),
    ensures
        extends(st, add_items(st, items, i, acc, cfg).0),
    decreases items, items.len() - i,
{
    if 0 <= i < items.len() {
        let (next, key) = if items[i] is Null {
            (st, Ok::<Seq<char>, Error>(seq!['_']))
        } else {
            add_value_spec(st, items[i], cfg)
        };
        if !(items[i] is Null) {
            lemma_add_value_grows(st, items[i], cfg);
        }
        if key is Ok {
            lemma_add_items_grows(next, items, i + 1, with_key(acc, key->Ok_0), cfg);
            lemma_extends_transitive(st, next, add_items(st, items, i, acc, cfg).0);
        }
    }
}

proof fn lemma_add_fields_grows(
    st: Store,
    entries: Seq<(Seq<char>, Tree)>,
    order: Seq<Seq<char>>,
    p: int,
    acc: Seq<char>,
    cfg: Config,
)
    requires
        st.values.no_duplicates(),
    ensures
        extends(st, add_fields(st, entries, order, p, acc, cfg).0),
    decreases entries, order.len() - p,
{
    if 0 <= p < order.len() {
        let q = field_index(entries, order, cfg.sort_key, p);
        let (next, key) = if 0 <= q < entries.len() {
            add_value_spec(st, entries[q].1, cfg)
        } else {
            (st, Ok::<Seq<char>, Error>(Seq::empty()))
        };
        if 0 <= q < entries.len() {
            lemma_add_value_grows(st, entries[q].1, cfg);
        }
        if key is Ok {
            lemma_add_fields_grows(next, entries, order, p + 1, with_key(acc, key->Ok_0), cfg);
            lemma_extends_transitive(st, next, add_fields(st, entries, order, p, acc, cfg).0);
        }
    }
}

/// Objects with the same names, once these are in the order of the schema,
/// share one schema: after the first was met, the next gets the same key and
/// adds nothing, in every later store.
pub proof fn lemma_schema_shared(
    st: Store,
    later: Store,
    first: Seq<Seq<char>>,
    next: Seq<Seq<char>>,
    cfg: Config,
)
    requires
        st.values.no_duplicates(),
        canonical_names(first, cfg.sort_key) == canonical_names(next, cfg.sort_key),
        extends(add_schema(st, first, cfg).0, later),
    ensures
        add_schema(later, next, cfg) == (later, add_schema(st, first, cfg).1),
{
    lemma_add_schema_grows(st, first, cfg);
    let text = schema_text(canonical_names(first, cfg.sort_key));
    assert(add_schema(st, first, cfg).0.schemas.dom().contains(text));
}

/// A tree that was added keeps its key in every later store, and adding it
/// again changes nothing.
pub proof fn lemma_add_value_again(st: Store, later: Store, t: Tree, cfg: Config)
    requires
        st.values.no_duplicates(),
        add_value_spec(st, t, cfg).1 is Ok,
        extends(add_value_spec(st, t, cfg).0, later),
    ensures
        add_value_spec(later, t, cfg) == (later, add_value_spec(st, t, cfg).1),
    decreases t, 0nat,
{
    match t {
        Tree::Null => {},
        Tree::Bool(b) => {
            lemma_intern_again(st, later, encode_bool_spec(b));
        },
        Tree::Number(Num::Special(x)) => {
            if preserves(cfg, x) {
                lemma_intern_again(st, later, encode_special_spec(x));
            }
        },
        Tree::Number(n) => {
            lemma_intern_again(st, later, encode_num_spec(n));
        },
        Tree::String(s) => {
            lemma_intern_again(st, later, encode_str_spec(s));
        },
        Tree::Array(items) => {
            let (filled, acc) = add_items(st, items, 0, seq!['a'], cfg);
            let text = array_text(items.len(), acc->Ok_0);
            lemma_add_items_grows(st, items, 0, seq!['a'], cfg);
            lemma_intern_grows(filled, text);
            lemma_extends_transitive(filled, intern(filled, text).0, later);
            lemma_add_items_again(st, later, items, 0, seq!['a'], cfg);
            lemma_intern_again(filled, later, text);
        },
        Tree::Object(entries) => {
            if entries.len() == 0 {
                lemma_intern_again(st, later, tagged('o', Seq::empty()));
            } else {
                let names = names_of(entries);
                let order = canonical_names(names, cfg.sort_key);
                let (shared, schema) = add_schema(st, names, cfg);
                let head = tagged('o', schema);
                let (filled, acc) = add_fields(shared, entries, order, 0, head, cfg);
                lemma_add_schema_grows(st, names, cfg);
                lemma_add_fields_grows(shared, entries, order, 0, head, cfg);
                lemma_intern_grows(filled, acc->Ok_0);
                lemma_extends_transitive(filled, intern(filled, acc->Ok_0).0, later);
                lemma_extends_transitive(shared, filled, later);
                lemma_schema_shared(st, later, names, names, cfg);
                lemma_add_fields_again(shared, later, entries, order, 0, head, cfg);
                lemma_intern_again(filled, later, acc->Ok_0);
            }
        },
    }
}

proof fn lemma_add_items_again(
    st: Store,
    later: Store,
    items: Seq<Tree>,
    i: int,
    acc: Seq<char>,
    cfg: Config,
)
    requires
        st.values.no_duplicates(),
        add_items(st, items, i, acc, cfg).1 is Ok,
        extends(add_items(st, items, i, acc, cfg).0, later),
    ensures
        add_items(later, items, i, acc, cfg) == (later, add_items(st, items, i, acc, cfg).1),
    decreases items, items.len() - i,
{
    if 0 <= i < items.len() {
        let (next, key) = if items[i] is Null {
            (st, Ok::<Seq<char>, Error>(seq!['_']))
        } else {
            add_value_spec(st, items[i], cfg)
        };
        let longer = with_key(acc, key->Ok_0);
        if !(items[i] is Null) {
            lemma_add_value_grows(st, items[i], cfg);
            lemma_add_items_grows(next, items, i + 1, longer, cfg);
            lemma_extends_transitive(next, add_items(next, items, i + 1, longer, cfg).0, later);
            lemma_add_value_again(st, later, items[i], cfg);
        }
        lemma_add_items_again(next, later, items, i + 1, longer, cfg);
    }
}

proof fn lemma_add_fields_again(
    st: Store,
    later: Store,
    entries: Seq<(Seq<char>, Tree)>,
    order: Seq<Seq<char>>,
    p: int,
    acc: Seq<char>,
    cfg: Config,
)
    requires
        st.values.no_duplicates(),
        add_fields(st, entries, order, p, acc, cfg).1 is Ok,
        extends(add_fields(st, entries, order, p, acc, cfg).0, later),
    ensures
        add_fields(later, entries, order, p, acc, cfg) == (
            later,
            add_fields(st, entries, order, p, acc, cfg).1,
        ),
    decreases entries, order.len() - p,
{
    if 0 <= p < order.len() {
        let q = field_index(entries, order, cfg.sort_key, p);
        let (next, key) = if 0 <= q < entries.len() {
            add_value_spec(st, entries[q].1, cfg)
        } else {
            (st, Ok::<Seq<char>, Error>(Seq::empty()))
        };
        let longer = with_key(acc, key->Ok_0);
        if 0 <= q < entries.len() {
            lemma_add_value_grows(st, entries[q].1, cfg);
            lemma_add_fields_grows(next, entries, order, p + 1, longer, cfg);
            lemma_extends_transitive(
                next,
                add_fields(next, entries, order, p + 1, longer, cfg).0,
                later,
            );
            lemma_add_value_again(st, later, entries[q].1, cfg);
        }
        lemma_add_fields_again(next, later, entries, order, p + 1, longer, cfg);
    }
}

/// Adding the same encoded value twice gives the same key both times, and
/// the second time adds nothing.
pub proof fn lemma_intern_twice(st: Store, text: Seq<char>)
    requires
        st.values.no_duplicates(),
    ensures
        intern(intern(st, text).0, text) == intern(st, text),
{
    lemma_intern_grows(st, text);
    lemma_intern_again(st, intern(st, text).0, text);
}

/// Adding the same tree twice gives the same key both times, and the second
/// time adds nothing.
pub proof fn lemma_add_value_twice(st: Store, t: Tree, cfg: Config)
    requires
        st.values.no_duplicates(),
        add_value_spec(st, t, cfg).1 is Ok,
    ensures
        add_value_spec(add_value_spec(st, t, cfg).0, t, cfg) == add_value_spec(st, t, cfg),
{
    lemma_add_value_grows(st, t, cfg);
    lemma_add_value_again(st, add_value_spec(st, t, cfg).0, t, cfg);
}

/// The value list of a compressed tree holds no encoded value twice.
pub proof fn lemma_compress_stores_once(t: Tree, cfg: Config)
    ensures
        compress_spec(t, cfg) matches Ok(c) ==> c.0.no_duplicates(),
{
    lemma_add_value_grows(empty_store(), t, cfg);
}

/// Lists of names that differ, once they are in the order of the schema,
/// never get the same key.
pub proof fn lemma_schemas_apart(
    st: Store,
    later: Store,
    first: Seq<Seq<char>>,
    next: Seq<Seq<char>>,
    cfg: Config,
)
    requires
        schemas_ok(st),
        schemas_ok(later),
        add_schema(st, first, cfg).0.values.is_prefix_of(later.values),
        canonical_names(first, cfg.sort_key) != canonical_names(next, cfg.sort_key),
    ensures
        add_schema(later, next, cfg).1 != add_schema(st, first, cfg).1,
{
    let a = canonical_names(first, cfg.sort_key);
    let b = canonical_names(next, cfg.sort_key);
    let (s1, k1) = add_schema(st, first, cfg);
    let (s2, k2) = add_schema(later, next, cfg);
    lemma_add_schema_decodes(st, first, cfg);
    lemma_add_schema_decodes(later, next, cfg);
    lemma_entry_decodes_stable(s1.values, later.values, k1, names_tree(a));
    lemma_entry_decodes_stable(later.values, s2.values, k1, names_tree(a));
    if k1 == k2 {
        assert(names_tree(a)->Array_0.len() == a.len());
        assert(names_tree(b)->Array_0.len() == b.len());
        assert forall|i: int| 0 <= i < a.len() implies a[i] == b[i] by {
            assert(names_tree(a)->Array_0[i] == Tree::String(a[i]));
            assert(names_tree(b)->Array_0[i] == Tree::String(b[i]));
        }
        assert(a =~= b);
    }
}

/// Whether the tree is neither an array nor an object.
pub open spec fn is_leaf(t: Tree) -> bool {
    !(t is Array) && !(t is Object)
}

/// Whether every element is an object that has the names `names`, once
/// they are in the order of the schema, and whose values are booleans,
/// numbers, strings or null.
pub open spec fn like_objects(items: Seq<Tree>, names: Seq<Seq<char>>, sort: bool) -> bool {
    forall|i: int|
        0 <= i < items.len() ==> (#[trigger] items[i]) is Object && like_fields(
            items[i]->Object_0,
            names,
            sort,
        )
}

/// Whether the properties have the names `names`, once they are in the order
/// of the schema, and values that are booleans, numbers, strings or null.
pub open spec fn like_fields(
    entries: Seq<(Seq<char>, Tree)>,
    names: Seq<Seq<char>>,
    sort: bool,
) -> bool {
    &&& entries.len() > 0
    &&& canonical_names(names_of(entries), sort) == names
    &&& forall|j: int| 0 <= j < entries.len() ==> is_leaf((#[trigger] entries[j]).1)
}

/// The schemas that are recorded once the names `names` were met.
pub open spec fn with_schema(st: Store, names: Seq<Seq<char>>) -> Map<Seq<char>, Seq<char>> {
    if st.schemas.contains_key(schema_text(names)) {
        st.schemas
    } else {
        st.schemas.insert(schema_text(names), add_names(st, names).1)
    }
}

/// Whether `key` names the entry of an object with the schema key `schema`:
/// the tag, the schema key, and a pipe before what follows.
pub open spec fn object_entry(values: Seq<Seq<char>>, key: Seq<char>, schema: Seq<char>) -> bool {
    &&& names_entry(values, key)
    &&& tagged('o', schema).push('|').is_prefix_of(values[key_value(key) as int])
}

proof fn lemma_leaf_fields(
    st: Store,
    entries: Seq<(Seq<char>, Tree)>,
    order: Seq<Seq<char>>,
    p: int,
    acc: Seq<char>,
    cfg: Config,
)
    requires
        forall|j: int| 0 <= j < entries.len() ==> is_leaf((#[trigger] entries[j]).1),
    ensures
        add_fields(st, entries, order, p, acc, cfg).0.schemas == st.schemas,
        add_fields(st, entries, order, p, acc, cfg).1 matches Ok(text) ==> acc.is_prefix_of(text)
            && (0 <= p < order.len() ==> acc.push('|').is_prefix_of(text)),
    decreases order.len() - p,
{
    if 0 <= p < order.len() {
        let q = field_index(entries, order, cfg.sort_key, p);
        let (next, key) = if 0 <= q < entries.len() {
            add_value_spec(st, entries[q].1, cfg)
        } else {
            (st, Ok::<Seq<char>, Error>(Seq::empty()))
        };
        if 0 <= q < entries.len() {
            assert(is_leaf(entries[q].1));
        }
        if key is Ok {
            let longer = with_key(acc, key->Ok_0);
            lemma_leaf_fields(next, entries, order, p + 1, longer, cfg);
            if let Ok(text) = add_fields(next, entries, order, p + 1, longer, cfg).1 {
                assert(acc.push('|').is_prefix_of(longer));
                assert(acc.push('|').is_prefix_of(text));
                assert(acc.is_prefix_of(text));
            }
        }
    }
}

/// An object adds no schema but its own, and its entry begins with the key
/// of that schema.
pub proof fn lemma_object_uses_schema(
    st: Store,
    entries: Seq<(Seq<char>, Tree)>,
    names: Seq<Seq<char>>,
    cfg: Config,
)
    requires
        like_fields(entries, names, cfg.sort_key),
    ensures
        add_value_spec(st, Tree::Object(entries), cfg).0.schemas == with_schema(st, names),
        with_schema(st, names).contains_key(schema_text(names)),
        add_value_spec(st, Tree::Object(entries), cfg).1 matches Ok(key) ==> object_entry(
            add_value_spec(st, Tree::Object(entries), cfg).0.values,
            key,
            with_schema(st, names)[schema_text(names)],
        ),
{
    let (shared, schema) = add_schema(st, names_of(entries), cfg);
    let head = tagged('o', schema);
    lemma_canonical_names_same(names_of(entries), cfg.sort_key);
    lemma_add_names_decodes(st, names);
    assert(shared.schemas =~= with_schema(st, names));
    lemma_leaf_fields(shared, entries, names, 0, head, cfg);
    let (filled, acc) = add_fields(shared, entries, names, 0, head, cfg);
    if let Ok(text) = acc {
        lemma_intern_names_entry(filled, text);
        let (next, key) = intern(filled, text);
        let at = if filled.values.contains(text) {
            filled.values.index_of(text)
        } else {
            filled.values.len() as int
        };
        lemma_key_plain(at as nat);
        assert(next.values[at] == text);
    }
}

proof fn lemma_object_entry_stable(
    values: Seq<Seq<char>>,
    more: Seq<Seq<char>>,
    key: Seq<char>,
    schema: Seq<char>,
)
    requires
        values.is_prefix_of(more),
        object_entry(values, key, schema),
    ensures
        object_entry(more, key, schema),
{
    assert(more[key_value(key) as int] == values[key_value(key) as int]);
}

proof fn lemma_like_items(
    st: Store,
    items: Seq<Tree>,
    names: Seq<Seq<char>>,
    i: int,
    keys: Seq<Seq<char>>,
    schema: Seq<char>,
    cfg: Config,
) -> (all: Seq<Seq<char>>)
    requires
        like_objects(items, names, cfg.sort_key),
        st.values.no_duplicates(),
        0 <= i <= items.len(),
        keys.len() == i,
        schema == with_schema(st, names)[schema_text(names)],
        forall|k: int| 0 <= k < i ==> object_entry(st.values, #[trigger] keys[k], schema),
    ensures
        add_items(st, items, i, chain(seq!['a'], keys), cfg).0.schemas == (if i < items.len() {
            with_schema(st, names)
        } else {
            st.schemas
        }),
        add_items(st, items, i, chain(seq!['a'], keys), cfg).1 matches Ok(text) ==> text == chain(
            seq!['a'],
            all,
        ) && all.len() == items.len() && forall|k: int|
            0 <= k < items.len() ==> object_entry(
                add_items(st, items, i, chain(seq!['a'], keys), cfg).0.values,
                #[trigger] all[k],
                schema,
            ),
    decreases items.len() - i,
{
    if i < items.len() {
        assert(items[i] is Object);
        let entries = items[i]->Object_0;
        lemma_object_uses_schema(st, entries, names, cfg);
        lemma_add_value_grows(st, items[i], cfg);
        let (next, key) = add_value_spec(st, items[i], cfg);
        if key is Ok {
            let longer = keys.push(key->Ok_0);
            assert(longer.drop_last() =~= keys);
            assert(chain(seq!['a'], longer) == with_key(chain(seq!['a'], keys), key->Ok_0));
            assert(with_schema(next, names) == next.schemas);
            assert forall|k: int| 0 <= k < i + 1 implies object_entry(
                next.values,
                #[trigger] longer[k],
                schema,
            ) by {
                if k < i {
                    lemma_object_entry_stable(st.values, next.values, keys[k], schema);
                }
            }
            lemma_like_items(next, items, names, i + 1, longer, schema, cfg)
        } else {
            keys
        }
    } else {
        keys
    }
}

/// However many objects of the same names an array holds, compressing it
/// records this one schema and no other. The key of the schema names an
/// entry that decodes to the names, no other entry decodes to them, and the
/// entry of every one of the objects begins with the tag and that key.
pub proof fn lemma_like_objects_share(items: Seq<Tree>, names: Seq<Seq<char>>, cfg: Config) -> (keys:
    Seq<Seq<char>>)
    requires
        items.len() >= 1,
        like_objects(items, names, cfg.sort_key),
    ensures
        ({
            let store = add_value_spec(empty_store(), Tree::Array(items), cfg).0;
            let schema = store.schemas[schema_text(names)];
            &&& store.schemas.dom() == set![schema_text(names)]
            &&& entry_decodes(store.values, schema, names_tree(names))
            &&& store.values.no_duplicates()
            &&& forall|other: Seq<char>| #[trigger]
                entry_decodes(store.values, other, names_tree(names)) ==> other == schema
            &&& compress_spec(Tree::Array(items), cfg) matches Ok(c) ==> {
                &&& names_entry(c.0, c.1)
                &&& c.0[key_value(c.1) as int] == chain(seq!['a'], keys)
                &&& keys.len() == items.len()
                &&& forall|k: int|
                    0 <= k < items.len() ==> object_entry(c.0, #[trigger] keys[k], schema)
            }
        }),
{
    let st = empty_store();
    let t = Tree::Array(items);
    let none = Seq::<Seq<char>>::empty();
    assert(chain(seq!['a'], none) == seq!['a']);
    let schema = with_schema(st, names)[schema_text(names)];
    let keys = lemma_like_items(st, items, names, 0, none, schema, cfg);
    lemma_add_value_grows(st, t, cfg);
    let store = add_value_spec(st, t, cfg).0;
    assert(store.schemas == with_schema(st, names));
    assert(store.schemas.dom() =~= set![schema_text(names)]);
    assert(items[0] is Object);
    let first = items[0]->Object_0;
    lemma_add_schema_decodes(st, names_of(first), cfg);
    let (shared, key) = add_schema(st, names_of(first), cfg);
    lemma_add_value_grows(st, items[0], cfg);
    lemma_schema_first(st, first, cfg);
    lemma_add_items_grows(st, items, 0, seq!['a'], cfg);
    lemma_first_item(st, items, cfg);
    lemma_entry_decodes_stable(shared.values, store.values, key, names_tree(names));
    lemma_add_value_back(st, t, cfg);
    assert forall|other: Seq<char>| #[trigger]
        entry_decodes(store.values, other, names_tree(names)) implies other == key by {
        lemma_names_entry_unique(
            store.values,
            other,
            key,
            names,
            store.values.len(),
            store.values.len(),
        );
    }
    let (filled, acc) = add_items(st, items, 0, seq!['a'], cfg);
    if let Ok(text) = acc {
        lemma_intern_names_entry(filled, text);
        let (next, root) = intern(filled, text);
        let at = if filled.values.contains(text) {
            filled.values.index_of(text)
        } else {
            filled.values.len() as int
        };
        lemma_key_plain(at as nat);
        assert(next.values[at] == text);
        lemma_intern_grows(filled, text);
        assert forall|k: int| 0 <= k < items.len() implies object_entry(
            next.values,
            #[trigger] keys[k],
            schema,
        ) by {
            lemma_object_entry_stable(filled.values, next.values, keys[k], schema);
        }
    }
    keys
}

/// The store after an object holds what the store held after its schema.
proof fn lemma_schema_first(st: Store, entries: Seq<(Seq<char>, Tree)>, cfg: Config)
    requires
        entries.len() > 0,
        st.values.no_duplicates(),
    ensures
        add_schema(st, names_of(entries), cfg).0.values.is_prefix_of(
            add_value_spec(st, Tree::Object(entries), cfg).0.values,
        ),
{
    let order = canonical_names(names_of(entries), cfg.sort_key);
    let (shared, schema) = add_schema(st, names_of(entries), cfg);
    lemma_add_schema_grows(st, names_of(entries), cfg);
    lemma_add_fields_grows(shared, entries, order, 0, tagged('o', schema), cfg);
    let (filled, acc) = add_fields(shared, entries, order, 0, tagged('o', schema), cfg);
    if acc is Ok {
        lemma_intern_grows(filled, acc->Ok_0);
        assert(shared.values.is_prefix_of(intern(filled, acc->Ok_0).0.values));
    }
}

/// The store after an array holds what the store held after its first
/// element.
proof fn lemma_first_item(st: Store, items: Seq<Tree>, cfg: Config)
    requires
        items.len() >= 1,
        !(items[0] is Null),
        st.values.no_duplicates(),
    ensures
        add_value_spec(st, items[0], cfg).0.values.is_prefix_of(
            add_value_spec(st, Tree::Array(items), cfg).0.values,
        ),
{
    let (next, key) = add_value_spec(st, items[0], cfg);
    lemma_add_value_grows(st, items[0], cfg);
    if key is Ok {
        lemma_add_items_grows(next, items, 1, with_key(seq!['a'], key->Ok_0), cfg);
        let (filled, acc) = add_items(st, items, 0, seq!['a'], cfg);
        if acc is Ok {
            lemma_intern_grows(filled, array_text(items.len(), acc->Ok_0));
            assert(next.values.is_prefix_of(intern(filled, array_text(items.len(), acc->Ok_0)).0.values));
        }
    }
}

} // verus!
