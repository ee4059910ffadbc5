//! Alphabetical order of property names.

use vstd::prelude::*;
use vstd::relations::{sorted_by, total_ordering};
use vstd::seq_lib::{lemma_sorted_unique, to_multiset_build, to_multiset_insert, to_multiset_len};
use crate::text::chars_of;

verus! {

/// Whether `a` comes no later than `b` in the dictionary: character by
/// character, a shorter text before its extensions.
pub open spec fn text_le(a: Seq<char>, b: Seq<char>) -> bool
    decreases a.len(),
{
    if a.len() == 0 {
        true
    } else if b.len() == 0 {
        false
    } else if a[0] == b[0] {
        text_le(a.drop_first(), b.drop_first())
    } else {
        a[0] < b[0]
    }
}

/// The dictionary order as a relation.
pub open spec fn by_text() -> spec_fn(Seq<char>, Seq<char>) -> bool {
    |a: Seq<char>, b: Seq<char>| text_le(a, b)
}

/// The names in the order in which an object's schema lists them: sorted if
/// `sort` is set, else as they are.
pub open spec fn canonical_names(names: Seq<Seq<char>>, sort: bool) -> Seq<Seq<char>> {
    if sort {
        names.sort_by(by_text())
    } else {
        names
    }
}

proof fn lemma_text_le_reflexive(a: Seq<char>)
    ensures
        text_le(a, a),
    decreases a.len(),
{
    if a.len() > 0 {
        lemma_text_le_reflexive(a.drop_first());
    }
}

proof fn lemma_text_le_antisymmetric(a: Seq<char>, b: Seq<char>)
    requires
        text_le(a, b),
        text_le(b, a),
    ensures
        a == b,
    decreases a.len(),
{
    if a.len() == 0 || b.len() == 0 {
        assert(a =~= b);
    } else {
        lemma_text_le_antisymmetric(a.drop_first(), b.drop_first());
        assert(a =~= seq![a[0]] + a.drop_first());
        assert(b =~= seq![b[0]] + b.drop_first());
    }
}

proof fn lemma_text_le_transitive(a: Seq<char>, b: Seq<char>, c: Seq<char>)
    requires
        text_le(a, b),
        text_le(b, c),
    ensures
        text_le(a, c),
    decreases a.len(),
{
    if a.len() > 0 && b.len() > 0 && c.len() > 0 && a[0] == b[0] && b[0] == c[0] {
        lemma_text_le_transitive(a.drop_first(), b.drop_first(), c.drop_first());
    }
}

proof fn lemma_text_le_connected(a: Seq<char>, b: Seq<char>)
    ensures
        text_le(a, b) || text_le(b, a),
    decreases a.len(),
{
    if a.len() > 0 && b.len() > 0 && a[0] == b[0] {
        lemma_text_le_connected(a.drop_first(), b.drop_first());
    }
}

/// The dictionary order is a total order.
pub proof fn lemma_by_text_total()
    ensures
        total_ordering(by_text()),
{
    let r = by_text();
    assert forall|x: Seq<char>| #[trigger] r(x, x) by {
        lemma_text_le_reflexive(x);
    }
    assert forall|x: Seq<char>, y: Seq<char>| #[trigger] r(x, y) && #[trigger] r(y, x) implies x
        == y by {
        lemma_text_le_antisymmetric(x, y);
    }
    assert forall|x: Seq<char>, y: Seq<char>, z: Seq<char>| #[trigger]
        r(x, y) && #[trigger] r(y, z) implies r(x, z) by {
        lemma_text_le_transitive(x, y, z);
    }
    assert forall|x: Seq<char>, y: Seq<char>| #[trigger] r(x, y) || #[trigger] r(y, x) by {
        lemma_text_le_connected(x, y);
    }
}

/// The canonical names are the given names, each as often as it was given.
pub proof fn lemma_canonical_names_same(names: Seq<Seq<char>>, sort: bool)
    ensures
        canonical_names(names, sort).to_multiset() == names.to_multiset(),
        canonical_names(names, sort).len() == names.len(),
        sort ==> sorted_by(canonical_names(names, sort), by_text()),
{
    if sort {
        lemma_by_text_total();
        names.lemma_sort_by_ensures(by_text());
        to_multiset_len(names);
        to_multiset_len(names.sort_by(by_text()));
    }
}

/// The names of a schema are the names of the object, none twice.
pub proof fn lemma_order_distinct(names: Seq<Seq<char>>, sort: bool)
    requires
        names.no_duplicates(),
    ensures
        canonical_names(names, sort).no_duplicates(),
        canonical_names(names, sort).len() == names.len(),
{
    lemma_canonical_names_same(names, sort);
    if sort {
        names.lemma_multiset_has_no_duplicates();
        canonical_names(names, sort).lemma_multiset_has_no_duplicates_conv();
    }
}

/// Whether `a` comes no later than `b` in the dictionary.
pub fn text_no_later(a: &str, b: &str) -> (r: bool)
    ensures
        r == text_le(a@, b@),
{
    let x = chars_of(a);
    let y = chars_of(b);
    let mut i: usize = 0;
    proof {
        assert(x@.skip(0) =~= x@);
        assert(y@.skip(0) =~= y@);
    }
    while i < x.len() && i < y.len() && x[i] == y[i]
        invariant
            i <= x.len(),
            i <= y.len(),
            text_le(x@, y@) == text_le(x@.skip(i as int), y@.skip(i as int)),
        decreases x.len() - i,
    {
        proof {
            assert(x@.skip(i as int).drop_first() =~= x@.skip(i + 1));
            assert(y@.skip(i as int).drop_first() =~= y@.skip(i + 1));
        }
        i += 1;
    }
    if i >= x.len() {
        true
    } else if i >= y.len() {
        false
    } else {
        x[i] < y[i]
    }
}

/// The names in dictionary order.
pub fn sorted_names(names: &Vec<String>) -> (out: Vec<String>)
    ensures
        out.deep_view() == names.deep_view().sort_by(by_text()),
{
    let mut out: Vec<String> = Vec::new();
    let mut i: usize = 0;
    proof {
        assert(out.deep_view() =~= names.deep_view().take(0));
    }
    while i < names.len()
        invariant
            i <= names.len(),
            sorted_by(out.deep_view(), by_text()),
            out.deep_view().to_multiset() == names.deep_view().take(i as int).to_multiset(),
        decreases names.len() - i,
    {
        let name = names[i].clone();
        let ghost before = out.deep_view();
        let mut p: usize = 0;
        while p < out.len() && text_no_later(out[p].as_str(), name.as_str())
            invariant
                p <= out.len(),
                out.deep_view() == before,
                forall|j: int| 0 <= j < p ==> text_le(#[trigger] before[j], name@),
            decreases out.len() - p,
        {
            p += 1;
        }
        out.insert(p, name);
        proof {
            let after = out.deep_view();
            assert(after =~= before.insert(p as int, name@));
            to_multiset_insert(before, p as int, name@);
            let seen = names.deep_view().take(i as int);
            assert(names.deep_view().take(i + 1) =~= seen.push(name@));
            to_multiset_build(seen, name@);
            assert forall|a: int, b: int| 0 <= a < b < after.len() implies #[trigger] by_text()(
                after[a],
                after[b],
            ) by {
                if b < p {
                    assert(by_text()(before[a], before[b]));
                } else if b == p {
                } else if a > p {
                    assert(by_text()(before[a - 1], before[b - 1]));
                } else {
                    lemma_text_le_connected(before[p as int], name@);
                    if a < p {
                        assert(by_text()(before[a], before[b - 1]));
                    } else if b - 1 > p {
                        assert(by_text()(before[p as int], before[b - 1]));
                        lemma_text_le_transitive(name@, before[p as int], before[b - 1]);
                    }
                }
            }
        }
        i += 1;
    }
    proof {
        let all = names.deep_view();
        assert(all.take(names.len() as int) =~= all);
        lemma_by_text_total();
        all.lemma_sort_by_ensures(by_text());
        lemma_sorted_unique(out.deep_view(), all.sort_by(by_text()), by_text());
    }
    out
}

} // verus!
