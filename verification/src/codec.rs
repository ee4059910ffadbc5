//! Compression of a tree into a value list and a root key, and back.

use vstd::prelude::*;
use crate::config::Config;
use crate::encode::{
    decode_bool, decode_bool_spec, decode_key, decode_num, decode_num_spec, decode_special,
    decode_special_spec, decode_str, decode_str_spec, has_tag, starts_with_tag, tagged,
};
use crate::error::Error;
use crate::memory::{
    accepted, add_value, add_value_spec, empty_store, find_field, Key, lemma_add_value_fails,
    lemma_add_value_succeeds, lemma_lenient_accepts, lemma_position_of, make_memory,
    make_memory_with, mem_to_values, position_of,
};
use crate::dedup::lemma_compress_stores_once;
use crate::refs::{lemma_compress_refers_back, refs_back};
use crate::number::{index_to_key, is_key, key_value};
use crate::roundtrip::{canonical, lemma_round_trip, names_sorted};
use crate::text::{chars_of, lemma_split_nonempty, split, split_text};
use crate::value::{
    all_finite, decoded_fields, decoded_value, entries_view, items_view, lemma_view_children,
    names_of, Object, result_view, Tree, tree_wf, Value,
};

verus! {

/// Compressed representation: the value list and the key of the root.
pub type Compressed = (Vec<String>, Key);

/// Whether `key` stands for null: the empty key, or the placeholder `_`.
pub open spec fn is_null_key(key: Seq<char>) -> bool {
    key.len() == 0 || key == seq!['_']
}

/// Whether `key` is the key of an entry of the list, written without leading
/// zeros.
pub open spec fn names_entry(values: Seq<Seq<char>>, key: Seq<char>) -> bool {
    is_key(key) && key == index_to_key(key_value(key)) && key_value(key) < values.len()
}

/// Whether `key` is empty or the key of an entry of the list.
pub open spec fn key_in_list(values: Seq<Seq<char>>, key: Seq<char>) -> bool {
    key.len() == 0 || names_entry(values, key)
}

/// Whether `root` is the key of the last entry of the list, or empty where
/// the list is.
pub open spec fn root_is_last(values: Seq<Seq<char>>, root: Seq<char>) -> bool {
    if values.len() == 0 {
        root.len() == 0
    } else {
        root == index_to_key((values.len() - 1) as nat)
    }
}

/// Whether `key` is the key of an entry of the list and decodes to `tree`.
pub open spec fn entry_decodes(values: Seq<Seq<char>>, key: Seq<char>, tree: Tree) -> bool {
    names_entry(values, key) && decode_spec(values, key, values.len()) == Ok::<Tree, Error>(tree)
}

/// The property names that a decoded schema gives: the one string, or the
/// strings of the array. Anything else is no schema.
pub open spec fn schema_names(t: Tree) -> Option<Seq<Seq<char>>> {
    match t {
        Tree::String(s) => Some(seq![s]),
        Tree::Array(items) => {
            if forall|i: int| 0 <= i < items.len() ==> (#[trigger] items[i]) is String {
                Some(items.map_values(|x: Tree| x->String_0))
            } else {
                None
            }
        },
        _ => None,
    }
}

/// The properties after `name` was given the value `t`: in place if `name`
/// was there, else at the end.
pub open spec fn assign(fields: Seq<(Seq<char>, Tree)>, name: Seq<char>, t: Tree) -> Seq<
    (Seq<char>, Tree),
> {
    let q = position_of(names_of(fields), name);
    if 0 <= q < fields.len() {
        fields.update(q, (name, t))
    } else {
        fields.push((name, t))
    }
}

/// The tree behind `key`.
///
/// The empty key and `_` are null. Any other key must be made of digits
/// (`InvalidKey`) and name an entry of the list (`IndexOutOfRange`), which is
/// decoded in turn. `depth` says how many entries may be entered one inside
/// the other; where that is not enough, decoding fails with
/// `CyclicReference`.
pub open spec fn decode_spec(values: Seq<Seq<char>>, key: Seq<char>, depth: nat) -> Result<
    Tree,
    Error,
>
    decreases depth, 0nat, 0nat,
{
    if is_null_key(key) {
        Ok(Tree::Null)
    } else if !is_key(key) {
        Err(Error::InvalidKey)
    } else if key_value(key) >= values.len() {
        Err(Error::IndexOutOfRange)
    } else if depth == 0 {
        Err(Error::CyclicReference)
    } else {
        decode_text(values, values[key_value(key) as int], (depth - 1) as nat)
    }
}

/// The tree that the encoded value `text` stands for, going by its tag.
pub open spec fn decode_text(values: Seq<Seq<char>>, text: Seq<char>, depth: nat) -> Result<
    Tree,
    Error,
>
    decreases depth, 3nat, 0nat,
{
    if has_tag(text, 'b') {
        Ok(Tree::Bool(decode_bool_spec(text)))
    } else if has_tag(text, 'o') {
        decode_object_spec(values, text, depth)
    } else if has_tag(text, 'N') {
        match decode_special_spec(text) {
            Ok(_) => Ok(Tree::Null),
            Err(e) => Err(e),
        }
    } else if has_tag(text, 'n') {
        match decode_num_spec(text) {
            Ok(n) => Ok(Tree::Number(n)),
            Err(e) => Err(e),
        }
    } else if has_tag(text, 'a') {
        decode_array_spec(values, text, depth)
    } else {
        Ok(Tree::String(decode_str_spec(text)))
    }
}

/// The array behind `text`: empty for the bare tag, else one element for
/// each key after the tag.
pub open spec fn decode_array_spec(values: Seq<Seq<char>>, text: Seq<char>, depth: nat) -> Result<
    Tree,
    Error,
>
    decreases depth, 2nat, 0nat,
{
    if text == tagged('a', Seq::empty()) {
        Ok(Tree::Array(Seq::empty()))
    } else {
        match decode_items(values, split(text, '|'), 1, Seq::empty(), depth) {
            Ok(items) => Ok(Tree::Array(items)),
            Err(e) => Err(e),
        }
    }
}

/// The elements `acc` followed by the trees behind the keys from position
/// `i` on; the first key that fails to decode decides the error.
pub open spec fn decode_items(
    values: Seq<Seq<char>>,
    parts: Seq<Seq<char>>,
    i: int,
    acc: Seq<Tree>,
    depth: nat,
) -> Result<Seq<Tree>, Error>
    decreases depth, 1nat, (parts.len() - i) as nat,
{
    if 0 <= i < parts.len() {
        match decode_spec(values, parts[i], depth) {
            Ok(t) => decode_items(values, parts, i + 1, acc.push(t), depth),
            Err(e) => Err(e),
        }
    } else {
        Ok(acc)
    }
}

/// The object behind `text`: empty for the bare tag; else the first key
/// after the tag leads to the schema, and each further key to the value of
/// the next name of the schema.
pub open spec fn decode_object_spec(values: Seq<Seq<char>>, text: Seq<char>, depth: nat) -> Result<
    Tree,
    Error,
>
    decreases depth, 2nat, 0nat,
{
    if text == tagged('o', Seq::empty()) {
        Ok(Tree::Object(Seq::empty()))
    } else {
        let parts = split(text, '|');
        if parts.len() < 2 {
            Err(Error::InvalidObjectSchema)
        } else {
            match decode_spec(values, parts[1], depth) {
                Ok(schema) => match schema_names(schema) {
                    Some(names) => match decode_fields(
                        values,
                        parts,
                        names,
                        2,
                        Seq::empty(),
                        depth,
                    ) {
                        Ok(fields) => Ok(Tree::Object(fields)),
                        Err(e) => Err(e),
                    },
                    None => Err(Error::InvalidObjectSchema),
                },
                Err(e) => Err(e),
            }
        }
    }
}

/// The properties `acc` after each key from position `i` on gave its tree
/// to the next name. A key that fails to decode decides the error; a key
/// for which no name is left fails with `InvalidObjectSchema`.
pub open spec fn decode_fields(
    values: Seq<Seq<char>>,
    parts: Seq<Seq<char>>,
    names: Seq<Seq<char>>,
    i: int,
    acc: Seq<(Seq<char>, Tree)>,
    depth: nat,
) -> Result<Seq<(Seq<char>, Tree)>, Error>
    decreases depth, 1nat, (parts.len() - i) as nat,
{
    if 2 <= i < parts.len() {
        match decode_spec(values, parts[i], depth) {
            Ok(t) => {
                if i - 2 < names.len() {
                    decode_fields(values, parts, names, i + 1, assign(acc, names[i - 2], t), depth)
                } else {
                    Err(Error::InvalidObjectSchema)
                }
            },
            Err(e) => Err(e),
        }
    } else {
        Ok(acc)
    }
}

/// What compressing the tree `t` with the options `cfg` gives: the value
/// list and the root key, or the error.
pub open spec fn compress_spec(t: Tree, cfg: Config) -> Result<(Seq<Seq<char>>, Seq<char>), Error> {
    let (store, key) = add_value_spec(empty_store(), t, cfg);
    match key {
        Ok(root) => Ok((store.values, root)),
        Err(e) => Err(e),
    }
}

/// What decompressing the value list `values` from the key `root` gives.
///
/// As many entries may be entered one inside the other as the list is long.
/// Whatever decodes with more depth than that decodes alike with it.
pub open spec fn decompress_spec(values: Seq<Seq<char>>, root: Seq<char>) -> Result<Tree, Error> {
    decode_spec(values, root, values.len())
}

/// Compressing a well-formed tree fails exactly when the options refuse one
/// of its numbers.
pub proof fn lemma_compress_fails_exactly(t: Tree, cfg: Config)
    requires
        tree_wf(t),
    ensures
        compress_spec(t, cfg) is Ok <==> accepted(t, cfg),
{
    if accepted(t, cfg) {
        lemma_add_value_succeeds(empty_store(), t, cfg);
    } else {
        lemma_add_value_fails(empty_store(), t, cfg);
    }
}

/// Whether the properties have names that differ and values that are well
/// formed.
pub open spec fn fields_wf(fields: Seq<(Seq<char>, Tree)>) -> bool {
    tree_wf(Tree::Object(fields))
}

/// Giving a property a well-formed value keeps well-formed properties so.
pub proof fn lemma_assign_wf(fields: Seq<(Seq<char>, Tree)>, name: Seq<char>, t: Tree)
    requires
        fields_wf(fields),
        tree_wf(t),
    ensures
        fields_wf(assign(fields, name, t)),
{
    let names = names_of(fields);
    let after = assign(fields, name, t);
    lemma_position_of(names, name);
    let q = position_of(names, name);
    if 0 <= q < fields.len() {
        assert(names_of(after) =~= names);
    } else {
        assert(names_of(after) =~= names.push(name));
        assert forall|i: int, j: int|
            0 <= i < names_of(after).len() && 0 <= j < names_of(after).len() && i != j implies names_of(
            after,
        )[i] != names_of(after)[j] by {
            if i < names.len() && j < names.len() {
                assert(names[i] != names[j]);
            } else if i < names.len() {
                assert(names[i] != name);
            } else {
                assert(names[j] != name);
            }
        }
    }
    assert forall|i: int| 0 <= i < after.len() implies tree_wf((#[trigger] after[i]).1) by {
        if i < fields.len() && i != q {
            assert(tree_wf(fields[i].1));
        }
    }
}

/// Whatever decodes is well formed.
pub proof fn lemma_decode_wf(values: Seq<Seq<char>>, key: Seq<char>, depth: nat)
    ensures
        decode_spec(values, key, depth) matches Ok(t) ==> tree_wf(t),
    decreases depth, 0nat, 0nat,
{
    if !is_null_key(key) && is_key(key) && key_value(key) < values.len() && depth > 0 {
        lemma_decode_text_wf(values, values[key_value(key) as int], (depth - 1) as nat);
    }
}

proof fn lemma_decode_text_wf(values: Seq<Seq<char>>, text: Seq<char>, depth: nat)
    ensures
        decode_text(values, text, depth) matches Ok(t) ==> tree_wf(t),
    decreases depth, 3nat, 0nat,
{
    if has_tag(text, 'b') {
    } else if has_tag(text, 'o') {
        if text != tagged('o', Seq::empty()) {
            let parts = split(text, '|');
            if parts.len() >= 2 {
                if let Ok(schema) = decode_spec(values, parts[1], depth) {
                    if let Some(names) = schema_names(schema) {
                        let none = Seq::<(Seq<char>, Tree)>::empty();
                        assert(names_of(none) =~= Seq::<Seq<char>>::empty());
                        lemma_decode_fields_wf(values, parts, names, 2, none, depth);
                    }
                }
            }
        } else {
            assert(names_of(Seq::<(Seq<char>, Tree)>::empty()) =~= Seq::<Seq<char>>::empty());
        }
    } else if has_tag(text, 'N') {
    } else if has_tag(text, 'n') {
    } else if has_tag(text, 'a') {
        if text != tagged('a', Seq::empty()) {
            lemma_decode_items_wf(values, split(text, '|'), 1, Seq::empty(), depth);
        }
    }
}

proof fn lemma_decode_items_wf(
    values: Seq<Seq<char>>,
    parts: Seq<Seq<char>>,
    i: int,
    acc: Seq<Tree>,
    depth: nat,
)
    requires
        forall|k: int| 0 <= k < acc.len() ==> tree_wf(#[trigger] acc[k]),
    ensures
        decode_items(values, parts, i, acc, depth) matches Ok(items) ==> forall|k: int|
            0 <= k < items.len() ==> tree_wf(#[trigger] items[k]),
    decreases depth, 1nat, (parts.len() - i) as nat,
{
    if 0 <= i < parts.len() {
        lemma_decode_wf(values, parts[i], depth);
        if let Ok(t) = decode_spec(values, parts[i], depth) {
            let longer = acc.push(t);
            assert forall|k: int| 0 <= k < longer.len() implies tree_wf(#[trigger] longer[k]) by {
                if k < acc.len() {
                    assert(longer[k] == acc[k]);
                }
            }
            lemma_decode_items_wf(values, parts, i + 1, longer, depth);
        }
    }
}

proof fn lemma_decode_fields_wf(
    values: Seq<Seq<char>>,
    parts: Seq<Seq<char>>,
    names: Seq<Seq<char>>,
    i: int,
    acc: Seq<(Seq<char>, Tree)>,
    depth: nat,
)
    requires
        fields_wf(acc),
    ensures
        decode_fields(values, parts, names, i, acc, depth) matches Ok(fields) ==> fields_wf(
            fields,
        ),
    decreases depth, 1nat, (parts.len() - i) as nat,
{
    if 2 <= i < parts.len() {
        lemma_decode_wf(values, parts[i], depth);
        if let Ok(t) = decode_spec(values, parts[i], depth) {
            if i - 2 < names.len() {
                lemma_assign_wf(acc, names[i - 2], t);
                lemma_decode_fields_wf(
                    values,
                    parts,
                    names,
                    i + 1,
                    assign(acc, names[i - 2], t),
                    depth,
                );
            }
        }
    }
}

/// The property names that the decoded schema `schema` gives.
fn names_from_schema(schema: &Value) -> (r: Option<Vec<String>>)
    ensures
        match schema_names(schema@) {
            Some(names) => r matches Some(v) && v.deep_view() == names,
            None => r is None,
        },
{
    proof {
        lemma_view_children(*schema);
    }
    match schema {
        Value::String(k) => {
            let mut names: Vec<String> = Vec::new();
            names.push(k.clone());
            assert(names.deep_view() =~= seq![k@]);
            Some(names)
        },
        Value::Array(arr) => {
            let ghost items = items_view(arr@);
            let mut names: Vec<String> = Vec::new();
            let mut i: usize = 0;
            while i < arr.len()
                invariant
                    i <= arr.len(),
                    items == items_view(arr@),
                    schema@ == Tree::Array(items),
                    names.len() == i,
                    forall|j: int| 0 <= j < i ==> (#[trigger] items[j]) is String,
                    forall|j: int| 0 <= j < i ==> (#[trigger] names[j])@ == items[j]->String_0,
                decreases arr.len() - i,
            {
                match &arr[i] {
                    Value::String(name) => {
                        names.push(name.clone());
                    },
                    _ => {
                        assert(!(items[i as int] is String));
                        return None;
                    },
                }
                i += 1;
            }
            assert(names.deep_view() =~= items.map_values(|x: Tree| x->String_0));
            Some(names)
        },
        _ => None,
    }
}

/// Gives the property `name` the value `value`: in place if the object has
/// the property, else as a new last property.
pub fn set_field(fields: &mut Object, name: String, value: Value)
    ensures
        entries_view(final(fields)@) == assign(entries_view(old(fields)@), name@, value@),
        decoded_fields(old(fields)@) && decoded_value(&value) ==> decoded_fields(final(fields)@),
{
    let ghost before = entries_view(fields@);
    let ghost held = fields@;
    let q = find_field(fields, &name);
    if q < fields.len() {
        fields.set(q, (name, value));
        assert(entries_view(fields@) =~= before.update(q as int, (name@, value@)));
        proof {
            if decoded_fields(held) && decoded_value(&value) {
                assert forall|i: int| 0 <= i < fields@.len() implies decoded_value(
                    &(#[trigger] fields@[i]).1,
                ) by {
                    if i != q {
                        assert(fields@[i] == held[i]);
                    }
                }
            }
        }
    } else {
        fields.push((name, value));
        assert(entries_view(fields@) =~= before.push((name@, value@)));
        proof {
            if decoded_fields(held) && decoded_value(&value) {
                assert forall|i: int| 0 <= i < fields@.len() implies decoded_value(
                    &(#[trigger] fields@[i]).1,
                ) by {
                    if i < held.len() {
                        assert(fields@[i] == held[i]);
                    }
                }
            }
        }
    }
}

/// Decodes the object behind the encoded value `s`.
fn decode_object(values: &Vec<String>, s: &str, depth: usize) -> (r: Result<Value, Error>)
    ensures
        result_view(r) == decode_object_spec(values.deep_view(), s@, depth as nat),
        r matches Ok(v) ==> decoded_value(&v),
    decreases depth, 2nat, 0nat,
{
    let chars = chars_of(s);
    if chars.len() == 2 && chars[0] == 'o' && chars[1] == '|' {
        let fields: Object = Vec::new();
        proof {
            assert(s@ =~= tagged('o', Seq::empty()));
            lemma_view_children(Value::Object(fields));
            assert(entries_view(fields@) =~= Seq::empty());
            assert(decoded_fields(fields@));
        }
        return Ok(Value::Object(fields));
    }
    proof {
        let bare = tagged('o', Seq::<char>::empty());
        assert(bare.len() == 2 && bare[0] == 'o' && bare[1] == '|');
    }
    let parts = split_text(s, '|');
    if parts.len() < 2 {
        return Err(Error::InvalidObjectSchema);
    }
    let schema = match decode_within(values, parts[1].as_str(), depth) {
        Ok(v) => v,
        Err(e) => {
            return Err(e);
        },
    };
    let names = match names_from_schema(&schema) {
        Some(names) => names,
        None => {
            return Err(Error::InvalidObjectSchema);
        },
    };
    let mut fields: Object = Vec::new();
    let mut i: usize = 2;
    proof {
        assert(entries_view(fields@) =~= Seq::empty());
    }
    while i < parts.len()
        invariant
            2 <= i <= parts.len(),
            s@ != tagged('o', Seq::empty()),
            parts.deep_view() == split(s@, '|'),
            result_view(Ok::<Value, Error>(schema)) == decode_spec(
                values.deep_view(),
                parts[1]@,
                depth as nat,
            ),
            schema_names(schema@) == Some(names.deep_view()),
            decoded_fields(fields@),
            decode_fields(
                values.deep_view(),
                parts.deep_view(),
                names.deep_view(),
                2,
                Seq::empty(),
                depth as nat,
            ) == decode_fields(
                values.deep_view(),
                parts.deep_view(),
                names.deep_view(),
                i as int,
                entries_view(fields@),
                depth as nat,
            ),
        decreases parts.len() - i,
    {
        let v = match decode_within(values, parts[i].as_str(), depth) {
            Ok(v) => v,
            Err(e) => {
                return Err(e);
            },
        };
        if i - 2 >= names.len() {
            return Err(Error::InvalidObjectSchema);
        }
        set_field(&mut fields, names[i - 2].clone(), v);
        i += 1;
    }
    proof {
        lemma_view_children(Value::Object(fields));
    }
    Ok(Value::Object(fields))
}

/// Decodes the array behind the encoded value `s`.
fn decode_array(values: &Vec<String>, s: &str, depth: usize) -> (r: Result<Value, Error>)
    ensures
        result_view(r) == decode_array_spec(values.deep_view(), s@, depth as nat),
        r matches Ok(v) ==> decoded_value(&v),
    decreases depth, 2nat, 0nat,
{
    let chars = chars_of(s);
    if chars.len() == 2 && chars[0] == 'a' && chars[1] == '|' {
        let items: Vec<Value> = Vec::new();
        proof {
            assert(s@ =~= tagged('a', Seq::empty()));
            lemma_view_children(Value::Array(items));
            assert(items_view(items@) =~= Seq::empty());
        }
        return Ok(Value::Array(items));
    }
    proof {
        let bare = tagged('a', Seq::<char>::empty());
        assert(bare.len() == 2 && bare[0] == 'a' && bare[1] == '|');
        lemma_split_nonempty(s@, '|');
    }
    let parts = split_text(s, '|');
    let mut arr: Vec<Value> = Vec::new();
    let mut i: usize = 1;
    proof {
        assert(items_view(arr@) =~= Seq::empty());
    }
    while i < parts.len()
        invariant
            1 <= i <= parts.len(),
            s@ != tagged('a', Seq::empty()),
            parts.deep_view() == split(s@, '|'),
            forall|k: int| 0 <= k < arr.len() ==> decoded_value(&#[trigger] arr[k]),
            decode_items(values.deep_view(), parts.deep_view(), 1, Seq::empty(), depth as nat)
                == decode_items(
                values.deep_view(),
                parts.deep_view(),
                i as int,
                items_view(arr@),
                depth as nat,
            ),
        decreases parts.len() - i,
    {
        let ghost before = items_view(arr@);
        match decode_within(values, parts[i].as_str(), depth) {
            Ok(v) => {
                arr.push(v);
                assert(items_view(arr@) =~= before.push(v@));
            },
            Err(e) => {
                return Err(e);
            },
        }
        i += 1;
    }
    proof {
        lemma_view_children(Value::Array(arr));
    }
    Ok(Value::Array(arr))
}

/// Decodes the tree behind `key`, entering at most `depth` entries one
/// inside the other.
fn decode_within(values: &Vec<String>, key: &str, depth: usize) -> (r: Result<Value, Error>)
    ensures
        result_view(r) == decode_spec(values.deep_view(), key@, depth as nat),
        r matches Ok(v) ==> decoded_value(&v),
    decreases depth, 0nat, 0nat,
{
    let key_chars = chars_of(key);
    if key_chars.len() == 0 {
        return Ok(Value::Null);
    }
    if key_chars.len() == 1 && key_chars[0] == '_' {
        assert(key@ =~= seq!['_']);
        return Ok(Value::Null);
    }
    proof {
        assert(seq!['_'].len() == 1 && seq!['_'][0] == '_');
    }
    assert(values.deep_view().len() == values.len());
    let id = match decode_key(key) {
        Ok(id) => id,
        Err(e) => {
            return Err(e);
        },
    };
    if id >= values.len() {
        return Err(Error::IndexOutOfRange);
    }
    if depth == 0 {
        return Err(Error::CyclicReference);
    }
    let v_str = values[id].as_str();
    let chars = chars_of(v_str);
    if starts_with_tag(&chars, 'b') {
        Ok(Value::Bool(decode_bool(v_str)))
    } else if starts_with_tag(&chars, 'o') {
        decode_object(values, v_str, depth - 1)
    } else if starts_with_tag(&chars, 'N') {
        match decode_special(v_str) {
            Ok(_) => Ok(Value::Null),
            Err(e) => Err(e),
        }
    } else if starts_with_tag(&chars, 'n') {
        match decode_num(v_str) {
            Ok(n) => Ok(Value::Number(n)),
            Err(e) => Err(e),
        }
    } else if starts_with_tag(&chars, 'a') {
        decode_array(values, v_str, depth - 1)
    } else {
        Ok(Value::String(decode_str(v_str)))
    }
}

/// Compresses a tree with the default options, under which nothing is
/// refused: returns the value list and the key of the root.
///
/// No encoded value is in the list twice, every entry refers to earlier
/// entries only, and the root is the key of the last entry. A well-formed
/// tree of finite numbers comes back from decompression as it was.
pub fn compress(o: &Value) -> (c: Compressed)
    ensures
        compress_spec(o@, Config::standard()) == Ok::<(Seq<Seq<char>>, Seq<char>), Error>(
            (c.0.deep_view(), c.1@),
        ),
        c.0.deep_view().no_duplicates(),
        refs_back(c.0.deep_view()),
        root_is_last(c.0.deep_view(), c.1@),
        tree_wf(o@) && all_finite(o@) ==> decompress_spec(
            c.0.deep_view(),
            c.1@,
        ) == Ok::<Tree, Error>(o@),
{
    proof {
        lemma_lenient_accepts(o@, Config::standard());
        lemma_add_value_succeeds(empty_store(), o@, Config::standard());
        lemma_compress_stores_once(o@, Config::standard());
        lemma_compress_refers_back(o@, Config::standard());
        if tree_wf(o@) && all_finite(o@) {
            lemma_round_trip(o@, Config::standard());
        }
    }
    let mut mem = make_memory();
    let root = match add_value(&mut mem, o) {
        Ok(root) => root,
        // The default options refuse nothing, so the walk cannot fail.
        Err(_) => String::new(),
    };
    let values = mem_to_values(&mem);
    (values, root)
}

/// Compresses a tree with the options `config`.
///
/// Fails with `UnsupportedValue` exactly when the walk meets a special
/// number that the options refuse, which a well-formed tree of finite numbers
/// never does. No encoded value is in the list twice, every entry refers to
/// earlier entries only, and the root is the key of the last entry. A
/// well-formed tree of finite numbers comes back from decompression with the
/// properties of every object in the order of its schema.
pub fn compress_with(o: &Value, config: Config) -> (r: Result<Compressed, Error>)
    ensures
        match r {
            Ok(c) => compress_spec(o@, config) == Ok::<(Seq<Seq<char>>, Seq<char>), Error>(
                (c.0.deep_view(), c.1@),
            ),
            Err(e) => compress_spec(o@, config) == Err::<(Seq<Seq<char>>, Seq<char>), Error>(e),
        },
        r matches Ok(c) ==> c.0.deep_view().no_duplicates() && refs_back(c.0.deep_view())
            && root_is_last(c.0.deep_view(), c.1@),
        tree_wf(o@) ==> (r is Ok <==> accepted(o@, config)),
        tree_wf(o@) && all_finite(o@) ==> (r matches Ok(
            c,
        ) && decompress_spec(c.0.deep_view(), c.1@) == Ok::<Tree, Error>(
            canonical(o@, config.sort_key),
        ) && (!config.sort_key || names_sorted(o@) ==> canonical(o@, config.sort_key) == o@)),
{
    proof {
        lemma_compress_stores_once(o@, config);
        lemma_compress_refers_back(o@, config);
        if tree_wf(o@) {
            lemma_compress_fails_exactly(o@, config);
        }
        if tree_wf(o@) && all_finite(o@) {
            lemma_round_trip(o@, config);
        }
    }
    let mut mem = make_memory_with(config);
    match add_value(&mut mem, o) {
        Ok(root) => {
            let values = mem_to_values(&mem);
            Ok((values, root))
        },
        Err(e) => Err(e),
    }
}

/// Decodes the tree behind `key` in the value list `values`.
///
/// The empty key and `_` give null. Fails with `InvalidKey` where a key holds
/// a character outside `0-9A-Za-z`, with `IndexOutOfRange` where a key names
/// no entry, with `InvalidNumber` and `InvalidSpecialValue` where the text
/// behind such a tag is malformed, with `InvalidObjectSchema` where an
/// object's schema is no list of names or too short, and with
/// `CyclicReference` where more entries would have to be entered one inside
/// the other than the list has. The first failure met in reading order
/// decides. What comes back is well formed, with every whole number as
/// `NegInt` if it is negative and else as `PosInt`.
pub fn decode(values: &Vec<String>, key: &str) -> (r: Result<Value, Error>)
    ensures
        result_view(r) == decompress_spec(values.deep_view(), key@),
        r matches Ok(v) ==> tree_wf(v@) && decoded_value(&v),
{
    proof {
        lemma_decode_wf(values.deep_view(), key@, values.len() as nat);
    }
    decode_within(values, key, values.len())
}

/// Decompresses a compressed representation back into its tree.
pub fn decompress(c: Compressed) -> (r: Result<Value, Error>)
    ensures
        result_view(r) == decompress_spec(c.0.deep_view(), c.1@),
        r matches Ok(v) ==> tree_wf(v@) && decoded_value(&v),
{
    let (values, root) = c;
    decode(&values, root.as_str())
}

} // verus!
