//! Documents: property values by name.

use crate::sorted::{lemma_ascending_index, lemma_sorted_domain, SortedMap};
use crate::text::text_is;
use crate::types::{Value, ValueView};
use vstd::prelude::*;

verus! {

/// A document: property values by name.
#[derive(Debug)]
pub struct Doc {
    pub entries: SortedMap<String, Value>,
}

/// What a document holds.
pub type DocView = Map<Seq<char>, ValueView>;

/// Equality of documents: the same names with equal values.
pub open spec fn docs_same(a: DocView, b: DocView) -> bool {
    a.dom() == b.dom() && forall|k: Seq<char>| a.dom().contains(k) ==> (#[trigger] a[k]).same(b[k])
}

/// The names that count as properties: all but `_id`, where the value is not
/// null.
pub open spec fn property_names(doc: DocView) -> Set<Seq<char>> {
    doc.dom().filter(|k: Seq<char>| k != "_id"@ && doc[k] != ValueView::Null)
}

impl Doc {
    pub open spec fn wf(&self) -> bool {
        self.entries.wf()
    }

    pub fn new() -> (r: Doc)
        ensures
            r.wf(),
            r@ == Map::<Seq<char>, ValueView>::empty(),
    {
        let r = Doc { entries: SortedMap::new() };
        assert(r@ =~= Map::<Seq<char>, ValueView>::empty());
        r
    }

    pub fn get(&self, name: &str) -> (r: Option<&Value>)
        requires
            self.wf(),
        ensures
            match r {
                Some(v) => self@.dom().contains(name@) && v@ == self@[name@],
                None => !self@.dom().contains(name@),
            },
    {
        self.entries.get(&name.to_owned())
    }

    pub fn insert(&mut self, name: String, value: Value)
        requires
            old(self).wf(),
        ensures
            final(self).wf(),
            final(self)@ == old(self)@.insert(name@, value@),
    {
        let ghost before = self.entries@;
        self.entries.insert(name, value);
        assert(self@ =~= before.map_values(|v: Value| v@).insert(name@, value@));
    }

    pub fn remove(&mut self, name: &str)
        requires
            old(self).wf(),
        ensures
            final(self).wf(),
            final(self)@ == old(self)@.remove(name@),
    {
        let ghost before = self.entries@;
        self.entries.remove(&name.to_owned());
        assert(self@ =~= before.map_values(|v: Value| v@).remove(name@));
    }

    pub fn clone_doc(&self) -> (r: Doc)
        requires
            self.wf(),
        ensures
            r.wf(),
            r@ == self@,
    {
        let mut r = Doc::new();
        let n = self.entries.len();
        let mut i: usize = 0;
        let ghost keys = self.entries.keys();
        proof {
            lemma_sorted_domain(self.entries);
            assert(self@.dom() =~= self.entries@.dom());
        }
        while i < n
            invariant
                i <= n,
                n == keys.len(),
                keys == self.entries.keys(),
                self.wf(),
                r.wf(),
                self@.dom() == keys.to_set(),
                forall|k: int|
                    0 <= k < keys.len() ==> self.entries@.dom().contains(#[trigger] keys[k])
                        && self.entries@[keys[k]] == self.entries.values()[k],
                forall|k: Seq<char>| #[trigger]
                    r@.dom().contains(k) ==> self@.dom().contains(k) && r@[k] == self@[k],
                forall|k: int| 0 <= k < i ==> r@.dom().contains(#[trigger] keys[k]),
            decreases n - i,
        {
            let ghost before = r@;
            r.insert(self.entries.key_at(i).clone(), self.entries.value_at(i).clone_value());
            proof {
                let key = keys[i as int];
                assert(keys.to_set().contains(key));
                assert(self@[key] == self.entries.values()[i as int]@);
                assert(r@ == before.insert(key, self@[key]));
                assert forall|k: Seq<char>| #[trigger] r@.dom().contains(k) implies self@.dom().contains(k)
                    && r@[k] == self@[k] by {
                    if k != key {
                        assert(before.dom().contains(k));
                    }
                }
            }
            i += 1;
        }
        assert(r@ =~= self@) by {
            assert forall|k: Seq<char>| self@.dom().contains(k) implies r@.dom().contains(k) by {
                assert(keys.to_set().contains(k));
                let j = keys.index_of(k);
                assert(keys[j] == k);
            }
        }
        r
    }

    /// Whether two documents hold equal values under the same names.
    pub fn same(&self, other: &Doc) -> (r: bool)
        requires
            self.wf(),
            other.wf(),
        ensures
            r == docs_same(self@, other@),
    {
        proof {
            lemma_sorted_domain(self.entries);
            lemma_sorted_domain(other.entries);
            assert(self@.dom() =~= self.entries@.dom());
            assert(other@.dom() =~= other.entries@.dom());
        }
        if self.entries.len() != other.entries.len() {
            return false;
        }
        let n = self.entries.len();
        let ghost keys = self.entries.keys();
        let mut i: usize = 0;
        while i < n
            invariant
                i <= n,
                n == keys.len(),
                keys == self.entries.keys(),
                self.wf(),
                other.wf(),
                self@.dom() == keys.to_set(),
                forall|k: int|
                    0 <= k < keys.len() ==> self.entries@.dom().contains(#[trigger] keys[k])
                        && self.entries@[keys[k]] == self.entries.values()[k],
                forall|k: int|
                    0 <= k < i ==> other@.dom().contains(#[trigger] keys[k])
                        && self@[keys[k]].same(other@[keys[k]]),
            decreases n - i,
        {
            let ghost key = keys[i as int];
            match other.get(self.entries.key_at(i).as_str()) {
                Some(v) => {
                    if !self.entries.value_at(i).same(v) {
                        assert(keys.to_set().contains(key));
                        assert(self@.dom().contains(key) && !self@[key].same(other@[key]));
                        return false;
                    }
                },
                None => {
                    assert(keys.to_set().contains(key));
                    return false;
                },
            }
            i += 1;
        }
        proof {
            assert(self@.dom().subset_of(other@.dom())) by {
                assert forall|k: Seq<char>| self@.dom().contains(k) implies other@.dom().contains(k) by {
                    let j = keys.index_of(k);
                    assert(keys[j] == k);
                }
            }
            vstd::set_lib::lemma_len_subset(self@.dom(), other@.dom());
            vstd::set_lib::lemma_subset_equality(self@.dom(), other@.dom());
            assert forall|k: Seq<char>| self@.dom().contains(k) implies (#[trigger] self@[k]).same(other@[k]) by {
                let j = keys.index_of(k);
                assert(keys[j] == k);
            }
        }
        true
    }
}

impl View for Doc {
    type V = DocView;

    open spec fn view(&self) -> DocView {
        self.entries@.map_values(|v: Value| v@)
    }
}

/// How many of a document's entries count as properties: those not named `_id`
/// and not null.
pub fn side_effect_property_count(doc: &Doc) -> (r: usize)
    requires
        doc.wf(),
    ensures
        r == property_names(doc@).len(),
        property_names(doc@).finite(),
{
    let n = doc.entries.len();
    let ghost keys = doc.entries.keys();
    proof {
        lemma_sorted_domain(doc.entries);
        assert(doc@.dom() =~= doc.entries@.dom());
    }
    let mut count: usize = 0;
    let mut i: usize = 0;
    let ghost mut seen = Set::<Seq<char>>::empty();
    while i < n
        invariant
            count <= i <= n,
            n == keys.len(),
            keys == doc.entries.keys(),
            doc.wf(),
            doc@.dom() == keys.to_set(),
            forall|k: int|
                0 <= k < keys.len() ==> doc.entries@.dom().contains(#[trigger] keys[k])
                    && doc.entries@[keys[k]] == doc.entries.values()[k],
            seen.finite(),
            count == seen.len(),
            forall|k: Seq<char>|
                seen.contains(k) <==> property_names(doc@).contains(k) && exists|j: int|
                    0 <= j < i && #[trigger] keys[j] == k,
        decreases n - i,
    {
        let ghost key = keys[i as int];
        proof {
            assert(keys.to_set().contains(key));
            assert(!seen.contains(key)) by {
                if seen.contains(key) {
                    let j = choose|j: int| 0 <= j < i && #[trigger] keys[j] == key;
                    lemma_ascending_index::<String>(keys, j);
                    lemma_ascending_index::<String>(keys, i as int);
                }
            }
        }
        if !text_is(doc.entries.key_at(i), "_id") && !doc.entries.value_at(i).is_null() {
            count += 1;
            proof {
                assert(property_names(doc@).contains(key));
                let before = seen;
                seen = seen.insert(key);
                assert forall|k: Seq<char>|
                    seen.contains(k) <==> property_names(doc@).contains(k) && exists|j: int|
                        0 <= j < i + 1 && #[trigger] keys[j] == k by {
                    if before.contains(k) {
                        let j = choose|j: int| 0 <= j < i && #[trigger] keys[j] == k;
                        assert(0 <= j < i + 1 && keys[j] == k);
                    }
                    if k == key {
                        assert(keys[i as int] == k);
                    }
                }
            }
        } else {
            proof {
                assert(!property_names(doc@).contains(key));
                assert forall|k: Seq<char>|
                    seen.contains(k) <==> property_names(doc@).contains(k) && exists|j: int|
                        0 <= j < i + 1 && #[trigger] keys[j] == k by {
                    if seen.contains(k) {
                        let j = choose|j: int| 0 <= j < i && #[trigger] keys[j] == k;
                        assert(0 <= j < i + 1 && keys[j] == k);
                    }
                }
            }
        }
        i += 1;
    }
    proof {
        assert(seen =~= property_names(doc@)) by {
            assert forall|k: Seq<char>| property_names(doc@).contains(k) implies seen.contains(k) by {
                let j = keys.index_of(k);
                assert(keys[j] == k);
            }
        }
    }
    count
}

/// The names whose property goes from `a` to `b` by being set: there is a
/// value in `b`, and `a` has none or another.
pub open spec fn names_set(a: DocView, b: DocView) -> Set<Seq<char>> {
    property_names(b).filter(
        |k: Seq<char>| !property_names(a).contains(k) || !a[k].same(b[k]),
    )
}

/// How many properties a change of document sets, and how many it removes: a
/// changed value counts both ways.
pub fn side_effect_property_delta(original: &Doc, updated: &Doc) -> (r: (usize, usize))
    requires
        original.wf(),
        updated.wf(),
    ensures
        r.0 == names_set(original@, updated@).len(),
        r.1 == names_set(updated@, original@).len(),
{
    (count_set(original, updated), count_set(updated, original))
}

fn count_set(a: &Doc, b: &Doc) -> (r: usize)
    requires
        a.wf(),
        b.wf(),
    ensures
        r == names_set(a@, b@).len(),
{
    let n = b.entries.len();
    let ghost keys = b.entries.keys();
    proof {
        lemma_sorted_domain(b.entries);
        assert(b@.dom() =~= b.entries@.dom());
    }
    let ghost goal = names_set(a@, b@);
    let mut count: usize = 0;
    let mut i: usize = 0;
    let ghost mut seen = Set::<Seq<char>>::empty();
    while i < n
        invariant
            count <= i <= n,
            n == keys.len(),
            keys == b.entries.keys(),
            a.wf(),
            b.wf(),
            goal == names_set(a@, b@),
            b@.dom() == keys.to_set(),
            forall|k: int|
                0 <= k < keys.len() ==> b.entries@.dom().contains(#[trigger] keys[k])
                    && b.entries@[keys[k]] == b.entries.values()[k],
            seen.finite(),
            count == seen.len(),
            forall|k: Seq<char>|
                seen.contains(k) <==> goal.contains(k) && exists|j: int|
                    0 <= j < i && #[trigger] keys[j] == k,
        decreases n - i,
    {
        let ghost key = keys[i as int];
        proof {
            assert(keys.to_set().contains(key));
            assert(!seen.contains(key)) by {
                if seen.contains(key) {
                    let j = choose|j: int| 0 <= j < i && #[trigger] keys[j] == key;
                    lemma_ascending_index::<String>(keys, j);
                    lemma_ascending_index::<String>(keys, i as int);
                }
            }
        }
        let value = b.entries.value_at(i);
        let mut hit = false;
        if !text_is(b.entries.key_at(i), "_id") && !value.is_null() {
            hit = match a.get(b.entries.key_at(i).as_str()) {
                Some(before) => before.is_null() || !before.same(value),
                None => true,
            };
        }
        assert(hit == goal.contains(key));
        if hit {
            count += 1;
        }
        proof {
            let before = seen;
            if hit {
                seen = seen.insert(key);
            }
            assert forall|k: Seq<char>|
                seen.contains(k) <==> goal.contains(k) && exists|j: int|
                    0 <= j < i + 1 && #[trigger] keys[j] == k by {
                if before.contains(k) {
                    let j = choose|j: int| 0 <= j < i && #[trigger] keys[j] == k;
                    assert(0 <= j < i + 1 && keys[j] == k);
                }
                if k == key {
                    assert(keys[i as int] == k);
                }
            }
        }
        i += 1;
    }
    proof {
        assert(seen =~= goal) by {
            assert forall|k: Seq<char>| goal.contains(k) implies seen.contains(k) by {
                let j = keys.index_of(k);
                assert(keys[j] == k);
            }
        }
    }
    count
}

/// A property counts where it has a value, but for `_id`. A change sets those
/// that count afterwards and did not before, or had another value.
pub proof fn law_properties_count_by_value(a: DocView, b: DocView, k: Seq<char>)
    ensures
        property_names(b).contains(k) <==> k != "_id"@ && b.dom().contains(k) && !(b[k] is Null),
        names_set(a, b).contains(k) <==> k != "_id"@ && b.dom().contains(k) && !(b[k] is Null) && (
        !a.dom().contains(k) || a[k] is Null || !a[k].same(b[k])),
{
}

} // verus!
