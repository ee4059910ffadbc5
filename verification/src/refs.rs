//! Keys name entries of the list, and entries refer to earlier entries.

use vstd::prelude::*;
use crate::codec::{compress_spec, key_in_list, names_entry, root_is_last};
use crate::config::Config;
use crate::depth::holds_keys;
use crate::encode::{
    decode_str_spec, encode_bool_spec, encode_num_spec, encode_special_spec, encode_str_spec,
    has_tag, lemma_str_is_no_other_kind, lemma_str_round_trip, tagged,
};
use crate::error::Error;
use crate::memory::{
    add_fields, add_items, add_name_keys, add_schema, add_value_spec, array_text,
    empty_store, field_index, intern, preserves, Store, with_key,
};
use crate::number::{index_to_key, is_key, key_value};
use crate::order::canonical_names;
use crate::roundtrip::{chain, lemma_chain_head, lemma_chain_split, lemma_key_plain};
use crate::schema::schema_text;
use crate::text::{free_of, lemma_split_append, lemma_split_free, split};
use crate::value::{names_of, Num, Tree};

verus! {

/// The key that an encoded value gets names an entry of the list.
pub proof fn lemma_intern_names_entry(st: Store, text: Seq<char>)
    ensures
        names_entry(intern(st, text).0.values, intern(st, text).1),
{
    if st.values.contains(text) {
        lemma_key_plain(st.values.index_of(text) as nat);
    } else {
        lemma_key_plain(st.values.len());
    }
}

/// The key that a tree gets is empty or names an entry of the list.
pub proof fn lemma_add_value_key_in_list(st: Store, t: Tree, cfg: Config)
    ensures
        add_value_spec(st, t, cfg).1 matches Ok(key) ==> key_in_list(
            add_value_spec(st, t, cfg).0.values,
            key,
        ),
{
    match t {
        Tree::Null => {},
        Tree::Bool(b) => {
            lemma_intern_names_entry(st, encode_bool_spec(b));
        },
        Tree::Number(Num::Special(x)) => {
            lemma_intern_names_entry(st, encode_special_spec(x));
        },
        Tree::Number(n) => {
            lemma_intern_names_entry(st, encode_num_spec(n));
        },
        Tree::String(s) => {
            lemma_intern_names_entry(st, encode_str_spec(s));
        },
        Tree::Array(items) => {
            let (filled, acc) = add_items(st, items, 0, seq!['a'], cfg);
            if acc is Ok {
                lemma_intern_names_entry(filled, array_text(items.len(), acc->Ok_0));
            }
        },
        Tree::Object(entries) => {
            if entries.len() == 0 {
                lemma_intern_names_entry(st, tagged('o', Seq::empty()));
            } else {
                let order = canonical_names(names_of(entries), cfg.sort_key);
                let (shared, schema) = add_schema(st, names_of(entries), cfg);
                let (filled, acc) = add_fields(shared, entries, order, 0, tagged('o', schema), cfg);
                if acc is Ok {
                    lemma_intern_names_entry(filled, acc->Ok_0);
                }
            }
        },
    }
}

/// Whether `part` is empty, the placeholder `_`, or the key of an entry
/// before position `at`.
pub open spec fn refers_back(part: Seq<char>, at: int) -> bool {
    part.len() == 0 || part == seq!['_'] || (is_key(part) && part == index_to_key(key_value(part))
        && key_value(part) < at)
}

/// Whether every key that the encoded value `text` holds is empty, the
/// placeholder, or the key of an entry before position `at`.
pub open spec fn text_refers_back(text: Seq<char>, at: int) -> bool {
    holds_keys(text) ==> forall|p: int|
        1 <= p < split(text, '|').len() ==> refers_back(#[trigger] split(text, '|')[p], at)
}

/// Whether every entry of the list refers to earlier entries only.
pub open spec fn refs_back(values: Seq<Seq<char>>) -> bool {
    forall|i: int| 0 <= i < values.len() ==> text_refers_back(#[trigger] values[i], i)
}

/// Whether the encoded value `text`, if it has no tag, is a string as the
/// encoder writes it.
pub open spec fn well_written(text: Seq<char>) -> bool {
    !has_tag(text, 'b') && !has_tag(text, 'o') && !has_tag(text, 'N') && !has_tag(text, 'n')
        && !has_tag(text, 'a') ==> text == encode_str_spec(decode_str_spec(text))
}

/// Whether every entry of the list refers to earlier entries only and is
/// written as the encoders write.
pub open spec fn orderly(values: Seq<Seq<char>>) -> bool {
    refs_back(values) && forall|i: int| 0 <= i < values.len() ==> well_written(#[trigger] values[i])
}

/// Whether every recorded schema has a key that names an entry of the list.
pub open spec fn schemas_in_list(st: Store) -> bool {
    forall|text: Seq<char>| #[trigger]
        st.schemas.contains_key(text) ==> names_entry(st.values, st.schemas[text])
}

/// Whether `key` is the key of the last entry, if the list grew from `before`
/// to `after`.
pub open spec fn last_if_grown(before: Store, after: Store, key: Seq<char>) -> bool {
    after.values.len() > before.values.len() ==> key == index_to_key(
        (after.values.len() - 1) as nat,
    )
}

/// Whether the references that are collected for a node are in order: each
/// refers back from the end of the list, and if the list grew since `before`,
/// the reference at `last` is the key of the last entry.
pub open spec fn collected(before: Store, now: Store, parts: Seq<Seq<char>>, last: int) -> bool {
    &&& forall|k: int| 0 <= k < parts.len() ==> refers_back(#[trigger] parts[k], now.values.len() as int)
    &&& now.values.len() > before.values.len() ==> 0 <= last < parts.len() && parts[last]
        == index_to_key((now.values.len() - 1) as nat)
}

/// What refers back from some position holds no pipe.
proof fn lemma_refers_back_plain(part: Seq<char>, at: int)
    requires
        refers_back(part, at),
    ensures
        free_of(part, '|'),
{
    if part == seq!['_'] {
        assert(part.len() == 1 && part[0] == '_');
    } else if part.len() > 0 {
        lemma_key_plain(key_value(part));
    }
}

/// Adding an encoded value that refers back keeps every entry referring
/// back. Where the value holds the key of the last entry, it is new, and so
/// its own key is that of the last entry then.
pub proof fn lemma_intern_back(st: Store, text: Seq<char>, last: Seq<char>)
    requires
        orderly(st.values),
        schemas_in_list(st),
        text_refers_back(text, st.values.len() as int),
        well_written(text),
        last.len() > 0 ==> st.values.len() >= 1 && last == index_to_key(
            (st.values.len() - 1) as nat,
        ) && holds_keys(text) && exists|p: int|
            1 <= p < split(text, '|').len() && #[trigger] split(text, '|')[p] == last,
    ensures
        orderly(intern(st, text).0.values),
        schemas_in_list(intern(st, text).0),
        st.values.is_prefix_of(intern(st, text).0.values),
        names_entry(intern(st, text).0.values, intern(st, text).1),
        last.len() > 0 || intern(st, text).0.values.len() > st.values.len() ==> intern(st, text).1
            == index_to_key((intern(st, text).0.values.len() - 1) as nat),
{
    lemma_intern_names_entry(st, text);
    let n = st.values.len();
    if st.values.contains(text) {
        let i = st.values.index_of(text);
        if last.len() > 0 {
            let p = choose|p: int|
                1 <= p < split(text, '|').len() && #[trigger] split(text, '|')[p] == last;
            lemma_key_plain((n - 1) as nat);
            assert(text_refers_back(st.values[i], i));
            assert(refers_back(split(text, '|')[p], i));
            if last == seq!['_'] {
                assert(last[0] == '_');
            }
        }
    } else {
        let next = intern(st, text).0;
        assert forall|i: int| 0 <= i < next.values.len() implies text_refers_back(
            #[trigger] next.values[i],
            i,
        ) by {
            if i < n {
                assert(text_refers_back(st.values[i], i));
            }
        }
    }
}

/// An encoded boolean, number or string holds no keys and is written as
/// the encoders write.
proof fn lemma_leaf_holds_no_keys(t: Tree)
    ensures
        t matches Tree::Bool(b) ==> !holds_keys(encode_bool_spec(b)) && well_written(
            encode_bool_spec(b),
        ),
        t matches Tree::Number(n) ==> !holds_keys(encode_num_spec(n)) && well_written(
            encode_num_spec(n),
        ),
        t matches Tree::String(s) ==> !holds_keys(encode_str_spec(s)) && well_written(
            encode_str_spec(s),
        ),
{
    if let Tree::String(s) = t {
        lemma_str_is_no_other_kind(s);
        lemma_str_round_trip(s);
    }
}

/// The text of a node whose references were collected refers back, and
/// holds the key of the last entry if the list grew.
proof fn lemma_node_text(
    before: Store,
    now: Store,
    tag: char,
    parts: Seq<Seq<char>>,
    last: int,
)
    requires
        collected(before, now, parts, last),
        tag == 'a' || tag == 'o',
        parts.len() >= 1,
    ensures
        text_refers_back(chain(seq![tag], parts), now.values.len() as int),
        well_written(chain(seq![tag], parts)),
        now.values.len() > before.values.len() ==> holds_keys(chain(seq![tag], parts))
            && exists|p: int|
            1 <= p < split(chain(seq![tag], parts), '|').len() && #[trigger] split(
                chain(seq![tag], parts),
                '|',
            )[p] == index_to_key((now.values.len() - 1) as nat),
{
    let text = chain(seq![tag], parts);
    assert forall|k: int| 0 <= k < parts.len() implies free_of(#[trigger] parts[k], '|') by {
        lemma_refers_back_plain(parts[k], now.values.len() as int);
    }
    lemma_split_free(seq![tag], '|');
    lemma_chain_split(seq![tag], parts);
    lemma_chain_head(seq![tag], parts);
    let pieces = split(text, '|');
    assert(pieces =~= seq![seq![tag]] + parts);
    assert(text[0] == seq![tag][0]);
    assert(has_tag(text, tag));
    assert forall|p: int| 1 <= p < pieces.len() implies refers_back(
        #[trigger] pieces[p],
        now.values.len() as int,
    ) by {
        assert(pieces[p] == parts[p - 1]);
    }
    if now.values.len() > before.values.len() {
        let bare = tagged(tag, Seq::<char>::empty());
        lemma_key_plain((now.values.len() - 1) as nat);
        if text == bare {
            lemma_split_append(seq![tag], Seq::<char>::empty(), '|');
            assert(seq![tag].push('|') + Seq::<char>::empty() =~= bare);
            assert(parts =~= seq![Seq::<char>::empty()]);
            assert(parts[last].len() == 0);
        }
        assert(pieces[last + 1] == parts[last]);
    }
}

/// Adding names as strings keeps every entry referring back.
proof fn lemma_add_name_keys_back(
    before: Store,
    st: Store,
    names: Seq<Seq<char>>,
    i: int,
    parts: Seq<Seq<char>>,
    last: int,
) -> (all: (Seq<Seq<char>>, int))
    requires
        orderly(st.values),
        schemas_in_list(st),
        before.values.len() <= st.values.len(),
        0 <= i <= names.len(),
        parts.len() == i,
        collected(before, st, parts, last),
    ensures
        orderly(add_name_keys(st, names, i, chain(seq!['a'], parts)).0.values),
        schemas_in_list(add_name_keys(st, names, i, chain(seq!['a'], parts)).0),
        st.values.is_prefix_of(add_name_keys(st, names, i, chain(seq!['a'], parts)).0.values),
        add_name_keys(st, names, i, chain(seq!['a'], parts)).1 == chain(seq!['a'], all.0),
        all.0.len() == names.len(),
        collected(before, add_name_keys(st, names, i, chain(seq!['a'], parts)).0, all.0, all.1),
    decreases names.len() - i,
{
    if i < names.len() {
        let text = encode_str_spec(names[i]);
        lemma_leaf_holds_no_keys(Tree::String(names[i]));
        lemma_intern_back(st, text, Seq::empty());
        let (next, key) = intern(st, text);
        let longer = parts.push(key);
        assert(longer.drop_last() =~= parts);
        assert(chain(seq!['a'], longer) == with_key(chain(seq!['a'], parts), key));
        let now_last = if next.values.len() > st.values.len() {
            i
        } else {
            last
        };
        assert forall|k: int| 0 <= k < longer.len() implies refers_back(
            #[trigger] longer[k],
            next.values.len() as int,
        ) by {
            if k < i {
                assert(refers_back(parts[k], st.values.len() as int));
            }
        }
        lemma_add_name_keys_back(before, next, names, i + 1, longer, now_last)
    } else {
        (parts, last)
    }
}

/// Adding a schema keeps every entry referring back, and gives a key that
/// names an entry: the last one, if the list grew.
pub proof fn lemma_add_schema_back(st: Store, names: Seq<Seq<char>>, cfg: Config)
    requires
        orderly(st.values),
        schemas_in_list(st),
    ensures
        orderly(add_schema(st, names, cfg).0.values),
        schemas_in_list(add_schema(st, names, cfg).0),
        st.values.is_prefix_of(add_schema(st, names, cfg).0.values),
        names_entry(add_schema(st, names, cfg).0.values, add_schema(st, names, cfg).1),
        last_if_grown(st, add_schema(st, names, cfg).0, add_schema(st, names, cfg).1),
{
    let order = canonical_names(names, cfg.sort_key);
    let text = schema_text(order);
    if !st.schemas.contains_key(text) {
        let none = Seq::<Seq<char>>::empty();
        assert(chain(seq!['a'], none) == seq!['a']);
        let (all, last) = lemma_add_name_keys_back(st, st, order, 0, none, 0);
        let (filled, acc) = add_name_keys(st, order, 0, seq!['a']);
        let grown = filled.values.len() > st.values.len();
        let array = array_text(order.len(), acc);
        if order.len() > 0 {
            lemma_node_text(st, filled, 'a', all, last);
        }
        let mark = if grown {
            index_to_key((filled.values.len() - 1) as nat)
        } else {
            Seq::empty()
        };
        if grown {
            lemma_key_plain((filled.values.len() - 1) as nat);
        }
        lemma_intern_back(filled, array, mark);
        let (next, key) = intern(filled, array);
        let done = add_schema(st, names, cfg).0;
        assert forall|other: Seq<char>| #[trigger] done.schemas.contains_key(other) implies names_entry(
            done.values,
            done.schemas[other],
        ) by {
            if other != text {
                assert(next.schemas.contains_key(other));
            }
        }
    }
}

/// Adding a tree keeps every entry referring back. The key that the tree
/// gets is empty or names an entry: the last one, if the list grew.
pub proof fn lemma_add_value_back(st: Store, t: Tree, cfg: Config)
    requires
        orderly(st.values),
        schemas_in_list(st),
    ensures
        orderly(add_value_spec(st, t, cfg).0.values),
        schemas_in_list(add_value_spec(st, t, cfg).0),
        st.values.is_prefix_of(add_value_spec(st, t, cfg).0.values),
        add_value_spec(st, t, cfg).1 matches Ok(key) ==> key_in_list(
            add_value_spec(st, t, cfg).0.values,
            key,
        ) && last_if_grown(st, add_value_spec(st, t, cfg).0, key),
    decreases t, 0nat,
{
    lemma_leaf_holds_no_keys(t);
    let none = Seq::<char>::empty();
    match t {
        Tree::Null => {},
        Tree::Bool(b) => {
            lemma_intern_back(st, encode_bool_spec(b), none);
        },
        Tree::Number(Num::Special(x)) => {
            if preserves(cfg, x) {
                lemma_intern_back(st, encode_special_spec(x), none);
            }
        },
        Tree::Number(n) => {
            lemma_intern_back(st, encode_num_spec(n), none);
        },
        Tree::String(s) => {
            lemma_intern_back(st, encode_str_spec(s), none);
        },
        Tree::Array(items) => {
            let start = Seq::<Seq<char>>::empty();
            assert(chain(seq!['a'], start) == seq!['a']);
            let (all, last) = lemma_add_items_back(st, st, items, 0, start, 0, cfg);
            let (filled, acc) = add_items(st, items, 0, seq!['a'], cfg);
            if acc is Ok {
                let grown = filled.values.len() > st.values.len();
                if items.len() > 0 {
                    lemma_node_text(st, filled, 'a', all, last);
                }
                let mark = if grown {
                    index_to_key((filled.values.len() - 1) as nat)
                } else {
                    none
                };
                if grown {
                    lemma_key_plain((filled.values.len() - 1) as nat);
                }
                lemma_intern_back(filled, array_text(items.len(), acc->Ok_0), mark);
            }
        },
        Tree::Object(entries) => {
            if entries.len() == 0 {
                let bare = tagged('o', Seq::<char>::empty());
                lemma_intern_back(st, bare, none);
            } else {
                let order = canonical_names(names_of(entries), cfg.sort_key);
                lemma_add_schema_back(st, names_of(entries), cfg);
                let (shared, schema) = add_schema(st, names_of(entries), cfg);
                let start = seq![schema];
                let head = tagged('o', schema);
                assert(start.drop_last() =~= Seq::<Seq<char>>::empty());
                assert(chain(seq!['o'], start.drop_last()) == seq!['o']);
                assert(chain(seq!['o'], start) =~= head);
                let (all, last) = lemma_add_fields_back(
                    st,
                    shared,
                    entries,
                    order,
                    0,
                    start,
                    0,
                    cfg,
                );
                let (filled, acc) = add_fields(shared, entries, order, 0, head, cfg);
                if acc is Ok {
                    let grown = filled.values.len() > st.values.len();
                    lemma_node_text(st, filled, 'o', all, last);
                    let mark = if grown {
                        index_to_key((filled.values.len() - 1) as nat)
                    } else {
                        none
                    };
                    if grown {
                        lemma_key_plain((filled.values.len() - 1) as nat);
                    }
                    lemma_intern_back(filled, acc->Ok_0, mark);
                }
            }
        },
    }
}

proof fn lemma_add_items_back(
    before: Store,
    st: Store,
    items: Seq<Tree>,
    i: int,
    parts: Seq<Seq<char>>,
    last: int,
    cfg: Config,
) -> (all: (Seq<Seq<char>>, int))
    requires
        orderly(st.values),
        schemas_in_list(st),
        before.values.len() <= st.values.len(),
        0 <= i <= items.len(),
        parts.len() == i,
        collected(before, st, parts, last),
    ensures
        orderly(add_items(st, items, i, chain(seq!['a'], parts), cfg).0.values),
        schemas_in_list(add_items(st, items, i, chain(seq!['a'], parts), cfg).0),
        st.values.is_prefix_of(add_items(st, items, i, chain(seq!['a'], parts), cfg).0.values),
        add_items(st, items, i, chain(seq!['a'], parts), cfg).1 matches Ok(text) ==> text
            == chain(seq!['a'], all.0) && all.0.len() == items.len() && collected(
            before,
            add_items(st, items, i, chain(seq!['a'], parts), cfg).0,
            all.0,
            all.1,
        ),
    decreases items, items.len() - i,
{
    if i < items.len() {
        let (next, key) = if items[i] is Null {
            (st, Ok::<Seq<char>, Error>(seq!['_']))
        } else {
            add_value_spec(st, items[i], cfg)
        };
        if !(items[i] is Null) {
            lemma_add_value_back(st, items[i], cfg);
        }
        if key is Ok {
            let k1 = key->Ok_0;
            let longer = parts.push(k1);
            assert(longer.drop_last() =~= parts);
            assert(chain(seq!['a'], longer) == with_key(chain(seq!['a'], parts), k1));
            let now_last = if next.values.len() > st.values.len() {
                i
            } else {
                last
            };
            assert forall|k: int| 0 <= k < longer.len() implies refers_back(
                #[trigger] longer[k],
                next.values.len() as int,
            ) by {
                if k < i {
                    assert(refers_back(parts[k], st.values.len() as int));
                }
            }
            lemma_add_items_back(before, next, items, i + 1, longer, now_last, cfg)
        } else {
            (parts, last)
        }
    } else {
        (parts, last)
    }
}

proof fn lemma_add_fields_back(
    before: Store,
    st: Store,
    entries: Seq<(Seq<char>, Tree)>,
    order: Seq<Seq<char>>,
    p: int,
    parts: Seq<Seq<char>>,
    last: int,
    cfg: Config,
) -> (all: (Seq<Seq<char>>, int))
    requires
        orderly(st.values),
        schemas_in_list(st),
        before.values.len() <= st.values.len(),
        0 <= p <= order.len(),
        parts.len() == p + 1,
        collected(before, st, parts, last),
    ensures
        orderly(add_fields(st, entries, order, p, chain(seq!['o'], parts), cfg).0.values),
        schemas_in_list(add_fields(st, entries, order, p, chain(seq!['o'], parts), cfg).0),
        st.values.is_prefix_of(
            add_fields(st, entries, order, p, chain(seq!['o'], parts), cfg).0.values,
        ),
        add_fields(st, entries, order, p, chain(seq!['o'], parts), cfg).1 matches Ok(text)
            ==> text == chain(seq!['o'], all.0) && all.0.len() == order.len() + 1 && collected(
            before,
            add_fields(st, entries, order, p, chain(seq!['o'], parts), cfg).0,
            all.0,
            all.1,
        ),
    decreases entries, order.len() - p,
{
    if p < order.len() {
        let q = field_index(entries, order, cfg.sort_key, p);
        let (next, key) = if 0 <= q < entries.len() {
            add_value_spec(st, entries[q].1, cfg)
        } else {
            (st, Ok::<Seq<char>, Error>(Seq::empty()))
        };
        if 0 <= q < entries.len() {
            lemma_add_value_back(st, entries[q].1, cfg);
        }
        if key is Ok {
            let k1 = key->Ok_0;
            let longer = parts.push(k1);
            assert(longer.drop_last() =~= parts);
            assert(chain(seq!['o'], longer) == with_key(chain(seq!['o'], parts), k1));
            let now_last = if next.values.len() > st.values.len() {
                p + 1
            } else {
                last
            };
            assert forall|k: int| 0 <= k < longer.len() implies refers_back(
                #[trigger] longer[k],
                next.values.len() as int,
            ) by {
                if k < p + 1 {
                    assert(refers_back(parts[k], st.values.len() as int));
                }
            }
            lemma_add_fields_back(before, next, entries, order, p + 1, longer, now_last, cfg)
        } else {
            (parts, last)
        }
    } else {
        (parts, last)
    }
}

/// In the value list of a compressed tree every entry refers to earlier
/// entries only, and the root is the key of the last entry, or empty where
/// the list is.
pub proof fn lemma_compress_refers_back(t: Tree, cfg: Config)
    ensures
        compress_spec(t, cfg) matches Ok(c) ==> orderly(c.0) && refs_back(c.0) && key_in_list(
            c.0,
            c.1,
        ) && root_is_last(c.0, c.1),
{
    lemma_add_value_back(empty_store(), t, cfg);
    lemma_empty_key(empty_store(), t, cfg);
    if let Ok(c) = compress_spec(t, cfg) {
        if c.1.len() > 0 {
            lemma_key_plain(key_value(c.1));
        }
    }
}

/// A tree that gets the empty key adds nothing: it is null, or a special
/// number that the options do not preserve.
pub proof fn lemma_empty_key(st: Store, t: Tree, cfg: Config)
    ensures
        add_value_spec(st, t, cfg).1 matches Ok(key) ==> (key.len() == 0 <==> t is Null || (t
            matches Tree::Number(Num::Special(x)) && !preserves(cfg, x))),
        add_value_spec(st, t, cfg).1 matches Ok(key) ==> key.len() == 0 ==> add_value_spec(
            st,
            t,
            cfg,
        ).0 == st,
{
    lemma_add_value_key_in_list(st, t, cfg);
    match t {
        Tree::Null => {},
        Tree::Bool(b) => {
            lemma_intern_names_entry(st, encode_bool_spec(b));
            lemma_key_plain(key_value(intern(st, encode_bool_spec(b)).1));
        },
        Tree::Number(Num::Special(x)) => {
            if preserves(cfg, x) {
                lemma_intern_names_entry(st, encode_special_spec(x));
                lemma_key_plain(key_value(intern(st, encode_special_spec(x)).1));
            }
        },
        Tree::Number(n) => {
            lemma_intern_names_entry(st, encode_num_spec(n));
            lemma_key_plain(key_value(intern(st, encode_num_spec(n)).1));
        },
        Tree::String(s) => {
            lemma_intern_names_entry(st, encode_str_spec(s));
            lemma_key_plain(key_value(intern(st, encode_str_spec(s)).1));
        },
        Tree::Array(items) => {
            let (filled, acc) = add_items(st, items, 0, seq!['a'], cfg);
            if acc is Ok {
                let text = array_text(items.len(), acc->Ok_0);
                lemma_intern_names_entry(filled, text);
                lemma_key_plain(key_value(intern(filled, text).1));
            }
        },
        Tree::Object(entries) => {
            if entries.len() == 0 {
                let bare = tagged('o', Seq::<char>::empty());
                lemma_intern_names_entry(st, bare);
                lemma_key_plain(key_value(intern(st, bare).1));
            } else {
                let order = canonical_names(names_of(entries), cfg.sort_key);
                let (shared, schema) = add_schema(st, names_of(entries), cfg);
                let (filled, acc) = add_fields(shared, entries, order, 0, tagged('o', schema), cfg);
                if acc is Ok {
                    lemma_intern_names_entry(filled, acc->Ok_0);
                    lemma_key_plain(key_value(intern(filled, acc->Ok_0).1));
                }
            }
        },
    }
}

} // verus!
