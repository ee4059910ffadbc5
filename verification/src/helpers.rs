//! Removal of null properties from objects.

use vstd::prelude::*;
use crate::value::{entries_view, lemma_view_children, Object, Tree, Value};

verus! {

/// The properties whose value is not null, in their order.
pub open spec fn without_nulls(entries: Seq<(Seq<char>, Tree)>) -> Seq<(Seq<char>, Tree)> {
    entries.filter(|e: (Seq<char>, Tree)| !(e.1 is Null))
}

/// The properties whose value is not null, in their order, where the same
/// was done to every value that is itself an object, at every depth. Arrays
/// stay as they are, whatever they hold.
pub open spec fn without_nulls_deep(entries: Seq<(Seq<char>, Tree)>) -> Seq<(Seq<char>, Tree)>
    decreases entries,
{
    if entries.len() == 0 {
        entries
    } else {
        let before = without_nulls_deep(entries.drop_last());
        let (name, value) = entries.last();
        match value {
            Tree::Null => before,
            Tree::Object(inner) => before.push((name, Tree::Object(without_nulls_deep(inner)))),
            _ => before.push((name, value)),
        }
    }
}

/// Removes every property whose value is null. Values inside other values
/// are not looked at.
pub fn trim_undefined(object: &mut Object)
    ensures
        entries_view(final(object)@) == without_nulls(entries_view(old(object)@)),
{
    let ghost start = entries_view(object@);
    let ghost keep = |e: (Seq<char>, Tree)| !(e.1 is Null);
    let mut kept: Object = Vec::new();
    assert(entries_view(kept@).reverse() =~= Seq::empty());
    assert(start.filter(keep) + Seq::<(Seq<char>, Tree)>::empty() =~= start.filter(keep));
    while object.len() > 0
        invariant
            keep == |e: (Seq<char>, Tree)| !(e.1 is Null),
            start.filter(keep) == entries_view(object@).filter(keep) + entries_view(
                kept@,
            ).reverse(),
        decreases object.len(),
    {
        let ghost before = entries_view(object@);
        let ghost done = entries_view(kept@);
        let entry = object.pop().unwrap();
        proof {
            reveal(Seq::filter);
            assert(entries_view(object@) =~= before.drop_last());
            assert(before.last() == (entry.0@, entry.1@));
        }
        let null = match &entry.1 {
            Value::Null => true,
            _ => false,
        };
        if !null {
            kept.push(entry);
            proof {
                let now = entries_view(kept@);
                assert(now =~= done.push(before.last()));
                assert(now.reverse() =~= seq![before.last()] + done.reverse());
                assert(before.drop_last().filter(keep).push(before.last()) + done.reverse()
                    =~= before.drop_last().filter(keep) + now.reverse());
            }
        }
    }
    proof {
        reveal(Seq::filter);
        assert(entries_view(object@) =~= Seq::empty());
        assert(Seq::<(Seq<char>, Tree)>::empty() + entries_view(kept@).reverse() =~= entries_view(
            kept@,
        ).reverse());
    }
    restore(object, kept);
}

/// Appends the properties of `kept`, last first, to `object`.
fn restore(object: &mut Object, kept: Object)
    ensures
        entries_view(final(object)@) == entries_view(old(object)@) + entries_view(kept@).reverse(),
{
    let ghost start = entries_view(object@);
    let ghost all = entries_view(kept@);
    let mut kept = kept;
    assert(start + all.reverse() =~= start + all.reverse());
    while kept.len() > 0
        invariant
            start + all.reverse() == entries_view(object@) + entries_view(kept@).reverse(),
        decreases kept.len(),
    {
        let ghost here = entries_view(object@);
        let ghost left = entries_view(kept@);
        let entry = kept.pop().unwrap();
        object.push(entry);
        proof {
            assert(entries_view(kept@) =~= left.drop_last());
            assert(entries_view(object@) =~= here.push(left.last()));
            assert(left.reverse() =~= seq![left.last()] + left.drop_last().reverse());
            assert(here + left.reverse() =~= here.push(left.last()) + left.drop_last().reverse());
        }
    }
    proof {
        assert(entries_view(kept@).reverse() =~= Seq::empty());
        assert(entries_view(object@) + Seq::<(Seq<char>, Tree)>::empty() =~= entries_view(
            object@,
        ));
    }
}

/// The properties of `entries` without those whose value is null, at every
/// depth that is reached through objects alone.
fn trimmed_deep(entries: Object) -> (out: Object)
    ensures
        entries_view(out@) == without_nulls_deep(entries_view(entries@)),
    decreases entries,
{
    let ghost start = entries_view(entries@);
    let mut rest = entries;
    let mut kept: Object = Vec::new();
    proof {
        assert(entries_view(kept@).reverse() =~= Seq::empty());
        assert(without_nulls_deep(start) + Seq::<(Seq<char>, Tree)>::empty()
            =~= without_nulls_deep(start));
    }
    while rest.len() > 0
        invariant
            start == entries_view(entries@),
            rest.len() <= entries.len(),
            forall|i: int| 0 <= i < rest.len() ==> rest[i] == entries[i],
            without_nulls_deep(start) == without_nulls_deep(entries_view(rest@)) + entries_view(
                kept@,
            ).reverse(),
        decreases rest.len(),
    {
        let ghost before = entries_view(rest@);
        let ghost done = entries_view(kept@);
        let ghost at = rest.len() - 1;
        let entry = rest.pop().unwrap();
        proof {
            assert(entries_view(rest@) =~= before.drop_last());
            assert(before.last() == (entry.0@, entry.1@));
            assert(entry == entries[at]);
            lemma_view_children(entry.1);
        }
        let (name, value) = entry;
        let ghost added: (Seq<char>, Tree);
        match value {
            Value::Null => {},
            Value::Object(inner) => {
                assert(decreases_to!(entries => entries[at]));
                assert(decreases_to!(entries[at] => entries[at].1));
                assert(decreases_to!(entries[at].1 => entries[at].1->Object_0));
                let trimmed = trimmed_deep(inner);
                let replaced = Value::Object(trimmed);
                proof {
                    lemma_view_children(replaced);
                    added = (name@, replaced@);
                }
                kept.push((name, replaced));
                proof {
                    let now = entries_view(kept@);
                    assert(now =~= done.push(added));
                    assert(now.reverse() =~= seq![added] + done.reverse());
                    assert(without_nulls_deep(before.drop_last()).push(added) + done.reverse()
                        =~= without_nulls_deep(before.drop_last()) + now.reverse());
                }
            },
            other => {
                proof {
                    added = (name@, other@);
                }
                kept.push((name, other));
                proof {
                    let now = entries_view(kept@);
                    assert(now =~= done.push(added));
                    assert(now.reverse() =~= seq![added] + done.reverse());
                    assert(without_nulls_deep(before.drop_last()).push(added) + done.reverse()
                        =~= without_nulls_deep(before.drop_last()) + now.reverse());
                }
            },
        }
    }
    proof {
        assert(entries_view(rest@) =~= Seq::empty());
        assert(Seq::<(Seq<char>, Tree)>::empty() + entries_view(kept@).reverse() =~= entries_view(
            kept@,
        ).reverse());
    }
    let mut out: Object = Vec::new();
    assert(entries_view(out@) =~= Seq::empty());
    restore(&mut out, kept);
    assert(Seq::<(Seq<char>, Tree)>::empty() + entries_view(kept@).reverse() =~= entries_view(
        kept@,
    ).reverse());
    out
}

/// Removes every property whose value is null, here and in every object
/// that is the value of a property, at every depth. Arrays are not entered.
pub fn trim_undefined_recursively(object: &mut Object)
    ensures
        entries_view(final(object)@) == without_nulls_deep(entries_view(old(object)@)),
{
    let mut taken: Object = Vec::new();
    std::mem::swap(object, &mut taken);
    let mut trimmed = trimmed_deep(taken);
    std::mem::swap(object, &mut trimmed);
}

} // verus!
