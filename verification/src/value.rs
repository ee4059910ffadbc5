//! Tree values and their mathematical model.

use vstd::prelude::*;
use crate::decimal::{check_float_text, parse_whole};
use crate::encode::{decoded_form, num_wf};
use crate::error::{Error, Special};
use crate::text::chars_of;

verus! {

/// The model of a number.
pub enum Num {
    /// A whole number.
    Int(int),
    /// Any other finite number, by its decimal text.
    Float(Seq<char>),
    /// A number without decimal text.
    Special(Special),
}

/// The model of a tree value.
#[verifier::ext_equal]
pub enum Tree {
    Null,
    Bool(bool),
    Number(Num),
    String(Seq<char>),
    /// The elements, in order.
    Array(Seq<Tree>),
    /// The properties, each a name and a value, in order.
    Object(Seq<(Seq<char>, Tree)>),
}

/// A number of a tree value.
#[derive(Debug, PartialEq, Eq)]
pub enum Number {
    /// A whole number that is not negative.
    PosInt(u64),
    /// A whole number, negative when it comes out of a decoder.
    NegInt(i64),
    /// Any other finite number, by its decimal text.
    Float(String),
    /// NaN or an infinity.
    Special(Special),
}

/// The properties of an object, in their order.
pub type Object = Vec<(String, Value)>;

/// A tree value.
#[derive(Debug, PartialEq, Eq)]
pub enum Value {
    Null,
    Bool(bool),
    Number(Number),
    String(String),
    /// The elements, in order.
    Array(Vec<Value>),
    /// The properties, each a name and a value, in order.
    Object(Object),
}

impl View for Number {
    type V = Num;

    open spec fn view(&self) -> Num {
        match *self {
            Number::PosInt(n) => Num::Int(n as int),
            Number::NegInt(i) => Num::Int(i as int),
            Number::Float(t) => Num::Float(t@),
            Number::Special(x) => Num::Special(x),
        }
    }
}

/// The model of the tree value `v`.
pub open spec fn tree_of(v: &Value) -> Tree
    decreases v,
{
    match v {
        Value::Null => Tree::Null,
        Value::Bool(b) => Tree::Bool(*b),
        Value::Number(n) => Tree::Number(n@),
        Value::String(s) => Tree::String(s@),
        Value::Array(items) => Tree::Array(
            Seq::new(
                items.len() as nat,
                |i: int|
                    if 0 <= i < items.len() {
                        tree_of(&items[i])
                    } else {
                        Tree::Null
                    },
            ),
        ),
        Value::Object(entries) => Tree::Object(
            Seq::new(
                entries.len() as nat,
                |i: int|
                    if 0 <= i < entries.len() {
                        (entries[i].0@, tree_of(&entries[i].1))
                    } else {
                        (Seq::empty(), Tree::Null)
                    },
            ),
        ),
    }
}

impl View for Value {
    type V = Tree;

    open spec fn view(&self) -> Tree {
        tree_of(self)
    }
}

/// The model of the properties of an object.
pub open spec fn entries_view(entries: Seq<(String, Value)>) -> Seq<(Seq<char>, Tree)> {
    Seq::new(entries.len(), |i: int| (entries[i].0@, entries[i].1@))
}

/// The model of the elements of an array.
pub open spec fn items_view(items: Seq<Value>) -> Seq<Tree> {
    Seq::new(items.len(), |i: int| items[i]@)
}

/// The model of an array is the array of the models of its elements, and
/// the model of an object is the object of the models of its properties.
pub proof fn lemma_view_children(v: Value)
    ensures
        v matches Value::Array(items) ==> v@ == Tree::Array(items_view(items@)),
        v matches Value::Object(entries) ==> v@ == Tree::Object(entries_view(entries@)),
{
    match v {
        Value::Array(items) => {
            assert(v@->Array_0 =~= items_view(items@));
        },
        Value::Object(entries) => {
            assert(v@->Object_0 =~= entries_view(entries@));
        },
        _ => {},
    }
}

/// The property names of an object, in its own order.
pub open spec fn names_of(entries: Seq<(Seq<char>, Tree)>) -> Seq<Seq<char>> {
    entries.map_values(|e: (Seq<char>, Tree)| e.0)
}

/// Whether the tree is well formed: every number is held in the one form
/// that a decoder gives it, and no object has two properties of one name.
pub open spec fn tree_wf(t: Tree) -> bool
    decreases t,
{
    match t {
        Tree::Number(n) => num_wf(n),
        Tree::Array(items) => forall|i: int| 0 <= i < items.len() ==> tree_wf(#[trigger] items[i]),
        Tree::Object(entries) => names_of(entries).no_duplicates() && forall|i: int|
            0 <= i < entries.len() ==> tree_wf((#[trigger] entries[i]).1),
        _ => true,
    }
}

/// Whether every number of the tree is finite.
pub open spec fn all_finite(t: Tree) -> bool
    decreases t,
{
    match t {
        Tree::Number(n) => !(n is Special),
        Tree::Array(items) => forall|i: int|
            0 <= i < items.len() ==> all_finite(#[trigger] items[i]),
        Tree::Object(entries) => forall|i: int|
            0 <= i < entries.len() ==> all_finite((#[trigger] entries[i]).1),
        _ => true,
    }
}

impl Clone for Number {
    fn clone(&self) -> (copy: Self)
        ensures
            copy@ == self@,
    {
        match self {
            Number::PosInt(n) => Number::PosInt(*n),
            Number::NegInt(i) => Number::NegInt(*i),
            Number::Float(t) => Number::Float(t.clone()),
            Number::Special(x) => Number::Special(*x),
        }
    }
}

impl Clone for Value {
    fn clone(&self) -> (copy: Self)
        ensures
            copy@ == self@,
        decreases self,
    {
        proof {
            lemma_view_children(*self);
        }
        match self {
            Value::Null => Value::Null,
            Value::Bool(b) => Value::Bool(*b),
            Value::Number(n) => Value::Number(n.clone()),
            Value::String(s) => Value::String(s.clone()),
            Value::Array(items) => {
                let mut copies: Vec<Value> = Vec::new();
                let mut i: usize = 0;
                while i < items.len()
                    invariant
                        i <= items.len(),
                        self->Array_0 == *items,
                        self is Array,
                        copies.len() == i,
                        forall|j: int| 0 <= j < i ==> copies[j]@ == items[j]@,
                    decreases items.len() - i,
                {
                    assert(decreases_to!(*items => items[i as int]));
                    assert(decreases_to!(*self => self->Array_0));
                    copies.push(items[i].clone());
                    i += 1;
                }
                let copy = Value::Array(copies);
                proof {
                    lemma_view_children(copy);
                    assert(items_view(copies@) =~= items_view(items@));
                }
                copy
            },
            Value::Object(entries) => {
                let mut copies: Object = Vec::new();
                let mut i: usize = 0;
                while i < entries.len()
                    invariant
                        i <= entries.len(),
                        self->Object_0 == *entries,
                        self is Object,
                        copies.len() == i,
                        forall|j: int|
                            0 <= j < i ==> copies[j].0@ == entries[j].0@ && copies[j].1@
                                == entries[j].1@,
                    decreases entries.len() - i,
                {
                    assert(decreases_to!(*entries => entries[i as int]));
                    assert(decreases_to!(entries[i as int] => entries[i as int].1));
                    assert(decreases_to!(*self => self->Object_0));
                    copies.push((entries[i].0.clone(), entries[i].1.clone()));
                    i += 1;
                }
                let copy = Value::Object(copies);
                proof {
                    lemma_view_children(copy);
                    assert(entries_view(copies@) =~= entries_view(entries@));
                }
                copy
            },
        }
    }
}

impl Number {
    /// Whether the number is held in the one form that a decoder gives it.
    pub fn is_well_formed(&self) -> (ok: bool)
        ensures
            ok == num_wf(self@),
    {
        match self {
            Number::Float(t) => {
                let chars = chars_of(t.as_str());
                parse_whole(&chars).is_none() && check_float_text(&chars)
            },
            _ => true,
        }
    }
}

/// Whether no two of the properties have the same name.
fn names_differ(entries: &Object) -> (ok: bool)
    ensures
        ok == names_of(entries_view(entries@)).no_duplicates(),
{
    let ghost names = names_of(entries_view(entries@));
    let mut i: usize = 0;
    while i < entries.len()
        invariant
            i <= entries.len(),
            names == names_of(entries_view(entries@)),
            forall|a: int, b: int| 0 <= a < i && 0 <= b < i && a != b ==> names[a] != names[b],
        decreases entries.len() - i,
    {
        let mut j: usize = 0;
        while j < i
            invariant
                j <= i < entries.len(),
                names == names_of(entries_view(entries@)),
                forall|b: int| 0 <= b < j ==> names[i as int] != names[b],
            decreases i - j,
        {
            if entries[i].0 == entries[j].0 {
                assert(names[i as int] == names[j as int]);
                return false;
            }
            j += 1;
        }
        i += 1;
    }
    true
}

impl Value {
    /// Whether the value is well formed: every number is held in the one
    /// form that a decoder gives it, and no object has two properties of one
    /// name.
    pub fn is_well_formed(&self) -> (ok: bool)
        ensures
            ok == tree_wf(self@),
        decreases self,
    {
        proof {
            lemma_view_children(*self);
        }
        match self {
            Value::Number(n) => n.is_well_formed(),
            Value::Array(items) => {
                let ghost trees = items_view(items@);
                let mut i: usize = 0;
                while i < items.len()
                    invariant
                        i <= items.len(),
                        self->Array_0 == *items,
                        self is Array,
                        trees == items_view(items@),
                        self@ == Tree::Array(trees),
                        forall|k: int| 0 <= k < i ==> tree_wf(#[trigger] trees[k]),
                    decreases items.len() - i,
                {
                    assert(decreases_to!(*items => items[i as int]));
                    assert(decreases_to!(*self => self->Array_0));
                    if !items[i].is_well_formed() {
                        assert(!tree_wf(self@->Array_0[i as int]));
                        return false;
                    }
                    i += 1;
                }
                assert(self@->Array_0 == trees);
                true
            },
            Value::Object(entries) => {
                let ghost fields = entries_view(entries@);
                if !names_differ(entries) {
                    return false;
                }
                let mut i: usize = 0;
                while i < entries.len()
                    invariant
                        i <= entries.len(),
                        self->Object_0 == *entries,
                        self is Object,
                        fields == entries_view(entries@),
                        self@ == Tree::Object(fields),
                        names_of(fields).no_duplicates(),
                        forall|k: int| 0 <= k < i ==> tree_wf((#[trigger] fields[k]).1),
                    decreases entries.len() - i,
                {
                    assert(decreases_to!(*entries => entries[i as int]));
                    assert(decreases_to!(entries[i as int] => entries[i as int].1));
                    assert(decreases_to!(*self => self->Object_0));
                    if !entries[i].1.is_well_formed() {
                        assert(!tree_wf(self@->Object_0[i as int].1));
                        return false;
                    }
                    i += 1;
                }
                assert(self@->Object_0 == fields);
                true
            },
            _ => true,
        }
    }
}

/// Whether every number of the value is held as a decoder gives it: a whole
/// number as `NegInt` if it is negative and else as `PosInt`, any other
/// number by its text.
pub open spec fn decoded_value(v: &Value) -> bool
    decreases v,
{
    match v {
        Value::Number(n) => decoded_form(*n),
        Value::Array(items) => forall|i: int|
            0 <= i < items.len() ==> decoded_value(&#[trigger] items[i]),
        Value::Object(entries) => decoded_fields(entries@),
        _ => true,
    }
}

/// Whether every number in the values of the properties is held as a
/// decoder gives it.
pub open spec fn decoded_fields(entries: Seq<(String, Value)>) -> bool
    decreases entries,
{
    forall|i: int| 0 <= i < entries.len() ==> decoded_value(&(#[trigger] entries[i]).1)
}

/// The model of what a fallible call returned.
pub open spec fn result_view<T: View>(r: Result<T, Error>) -> Result<T::V, Error> {
    match r {
        Ok(v) => Ok(v@),
        Err(e) => Err(e),
    }
}

} // verus!
