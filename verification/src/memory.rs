//! The deduplicating store and the tree walk that fills it.
//!
//! The store is a list of encoded values that only grows. Each distinct
//! encoded value is held once; its key is its position in the list. Objects
//! share their lists of property names: each distinct list is stored once, as
//! an array of strings, and is found again by a text that no other list has.

use vstd::prelude::*;
use vstd::hash_map::StringHashMap;
use vstd::seq_lib::to_multiset_contains;
use crate::config::Config;
use crate::encode::{
    encode_bool, encode_bool_spec, encode_num, encode_num_spec, encode_special, encode_special_spec,
    encode_str, encode_str_spec, tag_text, tagged,
};
use crate::error::{Error, Special};
use crate::number::{index_to_key, int_to_s};
use crate::order::{canonical_names, lemma_canonical_names_same, lemma_order_distinct, sorted_names};
use crate::codec::{decode_spec, entry_decodes, key_in_list, names_entry};
use crate::refs::{lemma_add_value_key_in_list, lemma_intern_names_entry};
use crate::roundtrip::{
    canonical, lemma_add_schema_decodes, lemma_add_value_decodes, lemma_schemas_ok_stable,
};
use crate::value::all_finite;
use crate::schema::{schema_key, schema_text};
use crate::value::{
    entries_view, items_view, lemma_view_children, names_of, Num, Number, Object, result_view, Tree,
    tree_wf, Value,
};

verus! {

/// A reference key: the position of an entry, in radix 62.
pub type Key = String;

/// The model of a store.
#[verifier::ext_equal]
pub struct Store {
    /// The encoded values, in the order in which they were first added.
    pub values: Seq<Seq<char>>,
    /// For each list of property names seen so far, under the text of the
    /// list: the key of the array that holds the names.
    pub schemas: Map<Seq<char>, Seq<char>>,
}

/// The store that holds nothing.
pub open spec fn empty_store() -> Store {
    Store { values: Seq::empty(), schemas: Map::empty() }
}

/// The store and the key after `text` was added: the key it already had, or
/// the next free key with `text` appended to the list.
pub open spec fn intern(st: Store, text: Seq<char>) -> (Store, Seq<char>) {
    if st.values.contains(text) {
        (st, index_to_key(st.values.index_of(text) as nat))
    } else {
        (
            Store { values: st.values.push(text), schemas: st.schemas },
            index_to_key(st.values.len()),
        )
    }
}

/// Whether the options keep the special number `x` as it is.
pub open spec fn preserves(cfg: Config, x: Special) -> bool {
    match x {
        Special::NaN => cfg.preserve_nan,
        _ => cfg.preserve_infinite,
    }
}

/// Whether the options refuse the special number `x`.
pub open spec fn refuses(cfg: Config, x: Special) -> bool {
    !preserves(cfg, x) && match x {
        Special::NaN => cfg.error_on_nan,
        _ => cfg.error_on_infinite,
    }
}

/// The first position of `name` among `names`, or their number if it is not
/// among them.
pub open spec fn position_of(names: Seq<Seq<char>>, name: Seq<char>) -> int
    decreases names.len(),
{
    if names.len() == 0 {
        0
    } else if names[0] == name {
        0
    } else {
        1 + position_of(names.drop_first(), name)
    }
}

/// The first position of a name is where the name stands, if it is among the
/// names, and their number if it is not.
pub proof fn lemma_position_of(names: Seq<Seq<char>>, name: Seq<char>)
    ensures
        0 <= position_of(names, name) <= names.len(),
        position_of(names, name) < names.len() ==> names[position_of(names, name)] == name,
        names.contains(name) ==> position_of(names, name) < names.len(),
        forall|j: int| 0 <= j < position_of(names, name) ==> names[j] != name,
    decreases names.len(),
{
    if names.len() > 0 && names[0] != name {
        let rest = names.drop_first();
        lemma_position_of(rest, name);
        if names.contains(name) {
            let j = choose|j: int| 0 <= j < names.len() && names[j] == name;
            assert(rest[j - 1] == name);
        }
        assert forall|j: int| 0 <= j < position_of(names, name) implies names[j] != name by {
            if j > 0 {
                assert(rest[j - 1] == names[j]);
            }
        }
    }
}

/// Where the value of the `p`-th name of the schema stands in the object:
/// at `p` if the names keep their order, else where that name first occurs.
pub open spec fn field_index(
    entries: Seq<(Seq<char>, Tree)>,
    order: Seq<Seq<char>>,
    sort: bool,
    p: int,
) -> int {
    if sort {
        position_of(names_of(entries), order[p])
    } else {
        p
    }
}

/// The array of strings that holds the names `names`.
pub open spec fn names_tree(names: Seq<Seq<char>>) -> Tree {
    Tree::Array(names.map_values(|n: Seq<char>| Tree::String(n)))
}

/// The text of an array or object after one more key.
pub open spec fn with_key(acc: Seq<char>, key: Seq<char>) -> Seq<char> {
    acc.push('|') + key
}

/// The store after the names from position `i` on were added as strings, and
/// the text of their array, which so far is `acc`.
pub open spec fn add_name_keys(st: Store, names: Seq<Seq<char>>, i: int, acc: Seq<char>) -> (
    Store,
    Seq<char>,
)
    decreases names.len() - i,
{
    if 0 <= i < names.len() {
        let (next, key) = intern(st, encode_str_spec(names[i]));
        add_name_keys(next, names, i + 1, with_key(acc, key))
    } else {
        (st, acc)
    }
}

/// The text of an array whose keys were appended to `acc`: an array without
/// elements is the bare tag.
pub open spec fn array_text(count: nat, acc: Seq<char>) -> Seq<char> {
    if count == 0 {
        tagged('a', Seq::empty())
    } else {
        acc
    }
}

/// The store and the key after the array of the strings `names` was added.
pub open spec fn add_names(st: Store, names: Seq<Seq<char>>) -> (Store, Seq<char>) {
    let (next, acc) = add_name_keys(st, names, 0, seq!['a']);
    intern(next, array_text(names.len(), acc))
}

/// The store and the key of the schema after an object with the property
/// names `names` was met: the key recorded for these names, or that of their
/// array, newly added and recorded. Names are recorded under a text that no
/// other list of names has.
pub open spec fn add_schema(st: Store, names: Seq<Seq<char>>, cfg: Config) -> (Store, Seq<char>) {
    let order = canonical_names(names, cfg.sort_key);
    let text = schema_text(order);
    if st.schemas.contains_key(text) {
        (st, st.schemas[text])
    } else {
        let (next, key) = add_names(st, order);
        (Store { values: next.values, schemas: next.schemas.insert(text, key) }, key)
    }
}

/// Whether every recorded list of names has a key that names an entry of the
/// list and decodes to the array of these names.
pub open spec fn schemas_ok(st: Store) -> bool {
    forall|names: Seq<Seq<char>>|
        st.schemas.contains_key(#[trigger] schema_text(names)) ==> entry_decodes(
            st.values,
            st.schemas[schema_text(names)],
            names_tree(names),
        )
}

/// The store and the key after the tree `t` was added.
///
/// Null takes no entry and has the empty key. A special number is stored in
/// its special form if the options preserve it, fails if they refuse it, and
/// else counts as null. An array is the tag `a`, then a pipe and a key for
/// each element, where a null element has the key `_`. An object without
/// properties is the bare tag `o|`; any other object is the tag, the key of
/// its schema, then a pipe and a key for each value in the order of the
/// schema. On failure the store holds what was added before.
pub open spec fn add_value_spec(st: Store, t: Tree, cfg: Config) -> (
    Store,
    Result<Seq<char>, Error>,
)
    decreases t, 0nat,
{
    match t {
        Tree::Null => (st, Ok(Seq::empty())),
        Tree::Bool(b) => {
            let (next, key) = intern(st, encode_bool_spec(b));
            (next, Ok(key))
        },
        Tree::Number(Num::Special(x)) => {
            if preserves(cfg, x) {
                let (next, key) = intern(st, encode_special_spec(x));
                (next, Ok(key))
            } else if refuses(cfg, x) {
                (st, Err(Error::UnsupportedValue(x)))
            } else {
                (st, Ok(Seq::empty()))
            }
        },
        Tree::Number(n) => {
            let (next, key) = intern(st, encode_num_spec(n));
            (next, Ok(key))
        },
        Tree::String(s) => {
            let (next, key) = intern(st, encode_str_spec(s));
            (next, Ok(key))
        },
        Tree::Array(items) => {
            let (filled, acc) = add_items(st, items, 0, seq!['a'], cfg);
            match acc {
                Ok(text) => {
                    let (next, key) = intern(filled, array_text(items.len(), text));
                    (next, Ok(key))
                },
                Err(e) => (filled, Err(e)),
            }
        },
        Tree::Object(entries) => {
            if entries.len() == 0 {
                let (next, key) = intern(st, tagged('o', Seq::empty()));
                (next, Ok(key))
            } else {
                let order = canonical_names(names_of(entries), cfg.sort_key);
                let (shared, schema) = add_schema(st, names_of(entries), cfg);
                let (filled, acc) = add_fields(shared, entries, order, 0, tagged('o', schema), cfg);
                match acc {
                    Ok(text) => {
                        let (next, key) = intern(filled, text);
                        (next, Ok(key))
                    },
                    Err(e) => (filled, Err(e)),
                }
            }
        },
    }
}

/// The store after the elements from position `i` on were added, and the
/// text of their array, which so far is `acc`.
pub open spec fn add_items(st: Store, items: Seq<Tree>, i: int, acc: Seq<char>, cfg: Config) -> (
    Store,
    Result<Seq<char>, Error>,
)
    decreases items, items.len() - i,
{
    if 0 <= i < items.len() {
        let (next, key) = if items[i] is Null {
            (st, Ok::<Seq<char>, Error>(seq!['_']))
        } else {
            add_value_spec(st, items[i], cfg)
        };
        match key {
            Ok(k) => add_items(next, items, i + 1, with_key(acc, k), cfg),
            Err(e) => (next, Err(e)),
        }
    } else {
        (st, Ok(acc))
    }
}

/// The store after the values of the names of `order` from position `p` on
/// were added, and the text of their object, which so far is `acc`.
pub open spec fn add_fields(
    st: Store,
    entries: Seq<(Seq<char>, Tree)>,
    order: Seq<Seq<char>>,
    p: int,
    acc: Seq<char>,
    cfg: Config,
) -> (Store, Result<Seq<char>, Error>)
    decreases entries, order.len() - p,
{
    if 0 <= p < order.len() {
        let q = field_index(entries, order, cfg.sort_key, p);
        let (next, key) = if 0 <= q < entries.len() {
            add_value_spec(st, entries[q].1, cfg)
        } else {
            (st, Ok::<Seq<char>, Error>(Seq::empty()))
        };
        match key {
            Ok(k) => add_fields(next, entries, order, p + 1, with_key(acc, k), cfg),
            Err(e) => (next, Err(e)),
        }
    } else {
        (st, Ok(acc))
    }
}

proof fn lemma_add_name_keys_is_items(
    st: Store,
    names: Seq<Seq<char>>,
    i: int,
    acc: Seq<char>,
    cfg: Config,
)
    ensures
        add_items(st, names_tree(names)->Array_0, i, acc, cfg) == (
            add_name_keys(st, names, i, acc).0,
            Ok::<Seq<char>, Error>(add_name_keys(st, names, i, acc).1),
        ),
    decreases names.len() - i,
{
    let items = names_tree(names)->Array_0;
    assert(items.len() == names.len());
    if 0 <= i < names.len() {
        let (next, key) = intern(st, encode_str_spec(names[i]));
        assert(items[i] == Tree::String(names[i]));
        assert(add_value_spec(st, items[i], cfg) == (next, Ok::<Seq<char>, Error>(key)));
        lemma_add_name_keys_is_items(next, names, i + 1, with_key(acc, key), cfg);
    }
}

/// The schema of an object is stored like any array of strings.
pub proof fn lemma_add_names_is_array(st: Store, names: Seq<Seq<char>>, cfg: Config)
    ensures
        add_value_spec(st, names_tree(names), cfg) == (
            add_names(st, names).0,
            Ok::<Seq<char>, Error>(add_names(st, names).1),
        ),
{
    lemma_add_name_keys_is_items(st, names, 0, seq!['a'], cfg);
}

/// Whether the options refuse no special number of the tree.
pub open spec fn accepted(t: Tree, cfg: Config) -> bool
    decreases t,
{
    match t {
        Tree::Number(Num::Special(x)) => !refuses(cfg, x),
        Tree::Array(items) => forall|i: int|
            0 <= i < items.len() ==> accepted(#[trigger] items[i], cfg),
        Tree::Object(entries) => forall|i: int|
            0 <= i < entries.len() ==> accepted((#[trigger] entries[i]).1, cfg),
        _ => true,
    }
}

/// Options without an error flag refuse nothing.
pub proof fn lemma_lenient_accepts(t: Tree, cfg: Config)
    requires
        !cfg.error_on_nan,
        !cfg.error_on_infinite,
    ensures
        accepted(t, cfg),
    decreases t,
{
    match t {
        Tree::Array(items) => {
            assert forall|i: int| 0 <= i < items.len() implies accepted(
                #[trigger] items[i],
                cfg,
            ) by {
                lemma_lenient_accepts(items[i], cfg);
            }
        },
        Tree::Object(entries) => {
            assert forall|i: int| 0 <= i < entries.len() implies accepted(
                (#[trigger] entries[i]).1,
                cfg,
            ) by {
                lemma_lenient_accepts(entries[i].1, cfg);
            }
        },
        _ => {},
    }
}

/// Adding a tree succeeds if the options refuse none of its numbers.
pub proof fn lemma_add_value_succeeds(st: Store, t: Tree, cfg: Config)
    requires
        accepted(t, cfg),
    ensures
        add_value_spec(st, t, cfg).1 is Ok,
    decreases t, 0nat,
{
    match t {
        Tree::Array(items) => {
            lemma_add_items_succeeds(st, items, 0, seq!['a'], cfg);
        },
        Tree::Object(entries) => {
            if entries.len() > 0 {
                let order = canonical_names(names_of(entries), cfg.sort_key);
                let (shared, schema) = add_schema(st, names_of(entries), cfg);
                lemma_add_fields_succeeds(shared, entries, order, 0, tagged('o', schema), cfg);
            }
        },
        _ => {},
    }
}

proof fn lemma_add_items_succeeds(
    st: Store,
    items: Seq<Tree>,
    i: int,
    acc: Seq<char>,
    cfg: Config,
)
    requires
        forall|k: int| 0 <= k < items.len() ==> accepted(#[trigger] items[k], cfg),
    ensures
        add_items(st, items, i, acc, cfg).1 is Ok,
    decreases items, items.len() - i,
{
    if 0 <= i < items.len() {
        if !(items[i] is Null) {
            lemma_add_value_succeeds(st, items[i], cfg);
        }
        let (next, key) = if items[i] is Null {
            (st, Ok::<Seq<char>, Error>(seq!['_']))
        } else {
            add_value_spec(st, items[i], cfg)
        };
        lemma_add_items_succeeds(next, items, i + 1, with_key(acc, key->Ok_0), cfg);
    }
}

proof fn lemma_add_fields_succeeds(
    st: Store,
    entries: Seq<(Seq<char>, Tree)>,
    order: Seq<Seq<char>>,
    p: int,
    acc: Seq<char>,
    cfg: Config,
)
    requires
        forall|k: int| 0 <= k < entries.len() ==> accepted((#[trigger] entries[k]).1, cfg),
    ensures
        add_fields(st, entries, order, p, acc, cfg).1 is Ok,
    decreases entries, order.len() - p,
{
    if 0 <= p < order.len() {
        let q = field_index(entries, order, cfg.sort_key, p);
        if 0 <= q < entries.len() {
            lemma_add_value_succeeds(st, entries[q].1, cfg);
        }
        let (next, key) = if 0 <= q < entries.len() {
            add_value_spec(st, entries[q].1, cfg)
        } else {
            (st, Ok::<Seq<char>, Error>(Seq::empty()))
        };
        lemma_add_fields_succeeds(next, entries, order, p + 1, with_key(acc, key->Ok_0), cfg);
    }
}

/// Adding a well-formed tree fails if the options refuse one of its numbers.
pub proof fn lemma_add_value_fails(st: Store, t: Tree, cfg: Config)
    requires
        tree_wf(t),
        !accepted(t, cfg),
    ensures
        add_value_spec(st, t, cfg).1 is Err,
    decreases t, 0nat,
{
    match t {
        Tree::Array(items) => {
            let k = choose|k: int| 0 <= k < items.len() && !accepted(#[trigger] items[k], cfg);
            lemma_add_items_fails(st, items, 0, seq!['a'], cfg, k);
        },
        Tree::Object(entries) => {
            let q = choose|q: int|
                0 <= q < entries.len() && !accepted((#[trigger] entries[q]).1, cfg);
            let names = names_of(entries);
            let order = canonical_names(names, cfg.sort_key);
            let (shared, schema) = add_schema(st, names, cfg);
            lemma_order_distinct(names, cfg.sort_key);
            lemma_canonical_names_same(names, cfg.sort_key);
            assert(names[q] == entries[q].0);
            assert(order.contains(names[q])) by {
                to_multiset_contains(names, names[q]);
                to_multiset_contains(order, names[q]);
            }
            lemma_position_of(order, names[q]);
            let p = position_of(order, names[q]);
            lemma_position_of(names, order[p]);
            let back = position_of(names, order[p]);
            assert(names[back] == names[q]);
            assert(back == q);
            lemma_position_of(names, names[q]);
            lemma_add_fields_fails(shared, entries, order, 0, tagged('o', schema), cfg, p);
        },
        _ => {},
    }
}

proof fn lemma_add_items_fails(
    st: Store,
    items: Seq<Tree>,
    i: int,
    acc: Seq<char>,
    cfg: Config,
    k: int,
)
    requires
        forall|j: int| 0 <= j < items.len() ==> tree_wf(#[trigger] items[j]),
        0 <= i <= k < items.len(),
        !accepted(items[k], cfg),
    ensures
        add_items(st, items, i, acc, cfg).1 is Err,
    decreases items, items.len() - i,
{
    let (next, key) = if items[i] is Null {
        (st, Ok::<Seq<char>, Error>(seq!['_']))
    } else {
        add_value_spec(st, items[i], cfg)
    };
    if accepted(items[i], cfg) {
        if !(items[i] is Null) {
            lemma_add_value_succeeds(st, items[i], cfg);
        }
        lemma_add_items_fails(next, items, i + 1, with_key(acc, key->Ok_0), cfg, k);
    } else {
        lemma_add_value_fails(st, items[i], cfg);
    }
}

proof fn lemma_add_fields_fails(
    st: Store,
    entries: Seq<(Seq<char>, Tree)>,
    order: Seq<Seq<char>>,
    p: int,
    acc: Seq<char>,
    cfg: Config,
    k: int,
)
    requires
        forall|j: int| 0 <= j < entries.len() ==> tree_wf((#[trigger] entries[j]).1),
        0 <= p <= k < order.len(),
        0 <= field_index(entries, order, cfg.sort_key, k) < entries.len(),
        !accepted(entries[field_index(entries, order, cfg.sort_key, k)].1, cfg),
    ensures
        add_fields(st, entries, order, p, acc, cfg).1 is Err,
    decreases entries, order.len() - p,
{
    let q = field_index(entries, order, cfg.sort_key, p);
    let (next, key) = if 0 <= q < entries.len() {
        add_value_spec(st, entries[q].1, cfg)
    } else {
        (st, Ok::<Seq<char>, Error>(Seq::empty()))
    };
    if 0 <= q < entries.len() && !accepted(entries[q].1, cfg) {
        lemma_add_value_fails(st, entries[q].1, cfg);
    } else {
        if 0 <= q < entries.len() {
            lemma_add_value_succeeds(st, entries[q].1, cfg);
        }
        lemma_add_fields_fails(next, entries, order, p + 1, with_key(acc, key->Ok_0), cfg, k);
    }
}

/// In-memory state of one compression: the value list, the cache that finds
/// an encoded value again, the cache that finds a list of property names
/// again, and the options.
pub struct Memory {
    pub(crate) store: Vec<String>,
    pub(crate) value_cache: StringHashMap<String>,
    pub(crate) schema_cache: StringHashMap<String>,
    pub(crate) key_count: usize,
    pub(crate) config: Config,
}

impl View for Memory {
    type V = Store;

    closed spec fn view(&self) -> Store {
        Store {
            values: self.store.deep_view(),
            schemas: self.schema_cache@.map_values(|k: String| k@),
        }
    }
}

impl Memory {
    /// The options that this store was made with.
    pub closed spec fn options(&self) -> Config {
        self.config
    }

    /// The caches agree with the list: the value cache knows exactly the
    /// entries of the list, each under the key of its position, the counter
    /// is the length of the list, and every recorded list of names has a key
    /// that decodes to the array of these names.
    pub closed spec fn wf(&self) -> bool {
        &&& self.key_count == self.store.len()
        &&& schemas_ok(self@)
        &&& self.store.deep_view().no_duplicates()
        &&& forall|text: Seq<char>| #[trigger]
            self.value_cache@.contains_key(text) <==> self.store.deep_view().contains(text)
        &&& forall|i: int|
            0 <= i < self.store.len() ==> (#[trigger] self.value_cache@[self.store[i]@])@
                == index_to_key(i as nat)
    }

    /// No encoded value is stored twice, and every recorded list of names
    /// has a key that decodes to the array of these names.
    pub proof fn lemma_wf(&self)
        requires
            self.wf(),
        ensures
            self@.values.no_duplicates(),
            schemas_ok(self@),
    {
    }
}

/// Creates an empty store with the default options.
pub fn make_memory() -> (mem: Memory)
    ensures
        mem.wf(),
        mem@ == empty_store(),
        mem.options() == Config::standard(),
{
    make_memory_with(Config::default())
}

/// Creates an empty store with the options `config`.
pub fn make_memory_with(config: Config) -> (mem: Memory)
    ensures
        mem.wf(),
        mem@ == empty_store(),
        mem.options() == config,
{
    let mem = Memory {
        store: Vec::new(),
        value_cache: StringHashMap::new(),
        schema_cache: StringHashMap::new(),
        key_count: 0,
        config,
    };
    proof {
        assert(mem.store.deep_view() =~= Seq::<Seq<char>>::empty());
        assert(mem@.schemas =~= Map::<Seq<char>, Seq<char>>::empty());
    }
    mem
}

/// The value list of the store: entry `i` is the value whose key is `i` in
/// radix 62.
pub fn mem_to_values(mem: &Memory) -> (values: Vec<String>)
    ensures
        values.deep_view() == mem@.values,
{
    let mut values: Vec<String> = Vec::new();
    let mut i: usize = 0;
    while i < mem.store.len()
        invariant
            i <= mem.store.len(),
            values.deep_view() == mem.store.deep_view().take(i as int),
        decreases mem.store.len() - i,
    {
        let ghost before = values.deep_view();
        values.push(mem.store[i].clone());
        assert(values.deep_view() =~= before.push(mem.store[i as int]@));
        assert(mem.store.deep_view().take(i + 1) =~= before.push(mem.store[i as int]@));
        i += 1;
    }
    assert(mem.store.deep_view().take(mem.store.len() as int) =~= mem.store.deep_view());
    values
}

/// Adds the encoded value `value` to the store and returns its key.
///
/// A value that the store already holds keeps its key, and the store stays as
/// it is. A new value goes to the end of the list and gets the next key.
pub fn get_value_key(mem: &mut Memory, value: &str) -> (key: String)
    requires
        old(mem).wf(),
    ensures
        final(mem).wf(),
        final(mem).options() == old(mem).options(),
        (final(mem)@, key@) == intern(old(mem)@, value@),
        names_entry(final(mem)@.values, key@),
{
    let ghost values = mem.store.deep_view();
    proof {
        lemma_intern_names_entry(mem@, value@);
    }
    match mem.value_cache.get(value) {
        Some(key) => {
            proof {
                let j = values.index_of(value@);
                assert(values[j] == mem.store[j]@);
            }
            return key.clone();
        },
        None => {},
    }
    let key = int_to_s(mem.key_count);
    mem.store.push(String::from_str(value));
    mem.key_count = mem.store.len();
    mem.value_cache.insert(String::from_str(value), key.clone());
    proof {
        let after = mem.store.deep_view();
        assert(after =~= values.push(value@));
        assert forall|text: Seq<char>| #[trigger]
            mem.value_cache@.contains_key(text) <==> after.contains(text) by {
            if text == value@ {
                assert(after[values.len() as int] == text);
            } else if values.contains(text) {
                let j = values.index_of(text);
                assert(after[j] == text);
            } else if after.contains(text) {
                let j = after.index_of(text);
                assert(values[j] == text);
            }
        }
        assert forall|i: int| 0 <= i < mem.store.len() implies (#[trigger] mem.value_cache@[mem.store[i]@])@
            == index_to_key(i as nat) by {
            if i < values.len() {
                assert(values[i] == mem.store[i]@);
                assert(values.contains(mem.store[i]@));
            }
        }
        assert(final(mem)@.schemas == old(mem)@.schemas);
        lemma_schemas_ok_stable(old(mem)@, final(mem)@);
    }
    key
}

/// A copy of the names.
fn copy_names(names: &Vec<String>) -> (copy: Vec<String>)
    ensures
        copy.deep_view() == names.deep_view(),
{
    let mut copy: Vec<String> = Vec::new();
    let mut i: usize = 0;
    while i < names.len()
        invariant
            i <= names.len(),
            copy.len() == i,
            forall|j: int| 0 <= j < i ==> copy[j]@ == names[j]@,
        decreases names.len() - i,
    {
        copy.push(names[i].clone());
        i += 1;
    }
    assert(copy.deep_view() =~= names.deep_view());
    copy
}

/// Adds the array of the strings `names` and returns its key.
fn add_name_array(mem: &mut Memory, names: &Vec<String>) -> (key: String)
    requires
        old(mem).wf(),
    ensures
        final(mem).wf(),
        final(mem).options() == old(mem).options(),
        (final(mem)@, key@) == add_names(old(mem)@, names.deep_view()),
{
    let ghost start = mem@;
    let ghost cfg = mem.options();
    let ghost all = names.deep_view();
    let mut acc = String::new();
    acc.push('a');
    assert(acc@ =~= seq!['a']);
    let mut i: usize = 0;
    while i < names.len()
        invariant
            i <= names.len(),
            all == names.deep_view(),
            mem.wf(),
            mem.options() == cfg,
            add_name_keys(start, all, 0, seq!['a']) == add_name_keys(mem@, all, i as int, acc@),
        decreases names.len() - i,
    {
        let ghost before = acc@;
        let text = encode_str(names[i].as_str());
        let key = get_value_key(mem, text.as_str());
        acc.push('|');
        acc.append(key.as_str());
        assert(acc@ =~= with_key(before, key@));
        i += 1;
    }
    if names.len() == 0 {
        acc = tag_text('a');
    }
    get_value_key(mem, acc.as_str())
}

/// Returns the key of the schema of an object with the property names `keys`.
///
/// The names are sorted first if the options say so. A list of names that
/// was met before has its key from then; no other list has that key. New
/// names are added as an array of strings, whose key is recorded. Either way
/// the key names an entry that decodes to the array of the names.
pub fn get_schema(mem: &mut Memory, keys: &Vec<String>) -> (key: String)
    requires
        old(mem).wf(),
    ensures
        final(mem).wf(),
        final(mem).options() == old(mem).options(),
        (final(mem)@, key@) == add_schema(old(mem)@, keys.deep_view(), old(mem).options()),
        entry_decodes(
            final(mem)@.values,
            key@,
            names_tree(canonical_names(keys.deep_view(), old(mem).options().sort_key)),
        ),
{
    proof {
        lemma_add_schema_decodes(mem@, keys.deep_view(), mem.options());
    }
    let schema_keys = if mem.config.sort_key {
        sorted_names(keys)
    } else {
        copy_names(keys)
    };
    let schema = schema_key(&schema_keys);
    match mem.schema_cache.get(schema.as_str()) {
        Some(key) => {
            return key.clone();
        },
        None => {},
    }
    let key_id = add_name_array(mem, &schema_keys);
    let ghost filled = mem@;
    mem.schema_cache.insert(schema, key_id.clone());
    proof {
        assert(mem@.schemas =~= filled.schemas.insert(schema@, key_id@));
    }
    key_id
}

/// The property names of an object, in its own order.
fn object_names(entries: &Object) -> (names: Vec<String>)
    ensures
        names.deep_view() == names_of(entries_view(entries@)),
{
    let mut names: Vec<String> = Vec::new();
    let mut i: usize = 0;
    while i < entries.len()
        invariant
            i <= entries.len(),
            names.len() == i,
            forall|j: int| 0 <= j < i ==> names[j]@ == entries[j].0@,
        decreases entries.len() - i,
    {
        names.push(entries[i].0.clone());
        i += 1;
    }
    assert(names.deep_view() =~= names_of(entries_view(entries@)));
    names
}

/// The first position of a property called `name`, or the number of
/// properties if there is none.
pub fn find_field(entries: &Object, name: &String) -> (q: usize)
    ensures
        q == position_of(names_of(entries_view(entries@)), name@),
        q <= entries.len(),
{
    let ghost names = names_of(entries_view(entries@));
    let mut i: usize = 0;
    proof {
        assert(names.skip(0) =~= names);
    }
    while i < entries.len() && !(entries[i].0 == *name)
        invariant
            i <= entries.len(),
            names == names_of(entries_view(entries@)),
            position_of(names, name@) == i + position_of(names.skip(i as int), name@),
        decreases entries.len() - i,
    {
        proof {
            assert(names.skip(i as int).drop_first() =~= names.skip(i + 1));
            assert(names.skip(i as int)[0] == entries[i as int].0@);
        }
        i += 1;
    }
    proof {
        if i < entries.len() {
            assert(names.skip(i as int)[0] == entries[i as int].0@);
        }
    }
    i
}

/// Adds the tree `o` to the store and returns its key.
///
/// Fails with `UnsupportedValue` exactly when the walk meets a special number
/// that the options refuse before it is done; the store then holds what was
/// added until then. The key is empty or names an entry of the list. The key
/// of a well-formed tree of finite numbers decodes to that tree, with the
/// properties of every object in the order of its schema.
pub fn add_value(mem: &mut Memory, o: &Value) -> (r: Result<Key, Error>)
    requires
        old(mem).wf(),
    ensures
        final(mem).wf(),
        final(mem).options() == old(mem).options(),
        (final(mem)@, result_view(r)) == add_value_spec(old(mem)@, o@, old(mem).options()),
        r matches Ok(key) ==> key_in_list(final(mem)@.values, key@),
        tree_wf(o@) && all_finite(o@) ==> (r matches Ok(key) && decode_spec(
            final(mem)@.values,
            key@,
            final(mem)@.values.len(),
        ) == Ok::<Tree, Error>(canonical(o@, old(mem).options().sort_key))),
    decreases o,
{
    let ghost start = mem@;
    let ghost cfg = mem.options();
    proof {
        lemma_view_children(*o);
        lemma_add_value_key_in_list(start, o@, cfg);
        if tree_wf(o@) && all_finite(o@) {
            lemma_add_value_decodes(start, o@, cfg);
        }
    }
    match o {
        Value::Null => Ok(String::new()),
        Value::Bool(b) => {
            let text = encode_bool(*b);
            Ok(get_value_key(mem, text.as_str()))
        },
        Value::Number(Number::Special(x)) => {
            let keep = match x {
                Special::NaN => mem.config.preserve_nan,
                _ => mem.config.preserve_infinite,
            };
            let refuse = match x {
                Special::NaN => mem.config.error_on_nan,
                _ => mem.config.error_on_infinite,
            };
            if keep {
                let text = encode_special(*x);
                Ok(get_value_key(mem, text.as_str()))
            } else if refuse {
                Err(Error::UnsupportedValue(*x))
            } else {
                Ok(String::new())
            }
        },
        Value::Number(n) => {
            let text = encode_num(n);
            Ok(get_value_key(mem, text.as_str()))
        },
        Value::String(s) => {
            let text = encode_str(s.as_str());
            Ok(get_value_key(mem, text.as_str()))
        },
        Value::Array(items) => {
            let ghost trees = items_view(items@);
            let mut acc = String::new();
            acc.push('a');
            assert(acc@ =~= seq!['a']);
            let mut i: usize = 0;
            while i < items.len()
                invariant
                    i <= items.len(),
                    o->Array_0 == *items,
                    o is Array,
                    trees == items_view(items@),
                    o@ == Tree::Array(trees),
                    start == old(mem)@,
                    cfg == old(mem).options(),
                    mem.wf(),
                    mem.options() == cfg,
                    add_items(start, trees, 0, seq!['a'], cfg) == add_items(
                        mem@,
                        trees,
                        i as int,
                        acc@,
                        cfg,
                    ),
                decreases items.len() - i,
            {
                let ghost before = acc@;
                let item = &items[i];
                let key = match item {
                    Value::Null => {
                        let mut k = String::new();
                        k.push('_');
                        assert(k@ =~= seq!['_']);
                        k
                    },
                    _ => {
                        assert(decreases_to!(*items => items[i as int]));
                        assert(decreases_to!(*o => o->Array_0));
                        match add_value(mem, item) {
                            Ok(k) => k,
                            Err(e) => {
                                return Err(e);
                            },
                        }
                    },
                };
                acc.push('|');
                acc.append(key.as_str());
                assert(acc@ =~= with_key(before, key@));
                i += 1;
            }
            if items.len() == 0 {
                acc = tag_text('a');
            }
            Ok(get_value_key(mem, acc.as_str()))
        },
        Value::Object(entries) => {
            let ghost fields = entries_view(entries@);
            if entries.len() == 0 {
                let text = tag_text('o');
                return Ok(get_value_key(mem, text.as_str()));
            }
            let sort = mem.config.sort_key;
            let keys = object_names(entries);
            let key_id = get_schema(mem, &keys);
            let order = if sort {
                sorted_names(&keys)
            } else {
                keys
            };
            let ghost shared = mem@;
            let mut acc = tag_text('o');
            acc.append(key_id.as_str());
            let ghost head = acc@;
            let mut p: usize = 0;
            while p < order.len()
                invariant
                    p <= order.len(),
                    o->Object_0 == *entries,
                    o is Object,
                    fields == entries_view(entries@),
                    fields.len() > 0,
                    o@ == Tree::Object(fields),
                    start == old(mem)@,
                    cfg == old(mem).options(),
                    (shared, key_id@) == add_schema(start, names_of(fields), cfg),
                    head == tagged('o', key_id@),
                    order.deep_view() == canonical_names(names_of(fields), cfg.sort_key),
                    sort == cfg.sort_key,
                    !sort ==> order.len() == entries.len(),
                    mem.wf(),
                    mem.options() == cfg,
                    add_fields(shared, fields, order.deep_view(), 0, head, cfg) == add_fields(
                        mem@,
                        fields,
                        order.deep_view(),
                        p as int,
                        acc@,
                        cfg,
                    ),
                decreases order.len() - p,
            {
                let ghost before = acc@;
                let q = if sort {
                    find_field(entries, &order[p])
                } else {
                    p
                };
                let key = if q < entries.len() {
                    assert(decreases_to!(*entries => entries[q as int]));
                    assert(decreases_to!(entries[q as int] => entries[q as int].1));
                    assert(decreases_to!(*o => o->Object_0));
                    match add_value(mem, &entries[q].1) {
                        Ok(k) => k,
                        Err(e) => {
                            return Err(e);
                        },
                    }
                } else {
                    String::new()
                };
                acc.push('|');
                acc.append(key.as_str());
                assert(acc@ =~= with_key(before, key@));
                p += 1;
            }
            Ok(get_value_key(mem, acc.as_str()))
        },
    }
}

} // verus!
