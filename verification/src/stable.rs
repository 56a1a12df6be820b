//! Sorting a list by a key, where entries of the same key stay in the order in
//! which they were.

use crate::sorted::{
    lemma_ascending_index, lemma_map_keys_sorted, lemma_sorted_domain, lemma_sorted_exists,
    sorted_seq, OrderedKey, SortedMap,
};
use vstd::prelude::*;

verus! {

/// Each key with its place in the list.
pub open spec fn marked<K: OrderedKey>(keys: Seq<K::Model>) -> Set<(K::Model, usize)> {
    Set::new(|p: (K::Model, usize)| p.1 < keys.len() && p.0 == keys[p.1 as int])
}

/// The list in the order of its keys; entries of the same key stay in the order
/// in which they were.
pub open spec fn stable_sorted<K: OrderedKey, T>(items: Seq<T>, keys: Seq<K::Model>) -> Seq<T> {
    sorted_seq::<(K, usize)>(marked::<K>(keys)).map_values(
        |p: (K::Model, usize)| items[p.1 as int],
    )
}

/// Sorts a list by its keys.
pub fn stable_sort<K: OrderedKey, T>(items: Vec<T>, keys: Vec<K>) -> (r: Vec<T>)
    requires
        items@.len() == keys@.len(),
    ensures
        r@ == stable_sorted::<K, T>(items@, keys@.map_values(|k: K| k.model())),
{
    let ghost all = items@;
    let ghost models = keys@.map_values(|k: K| k.model());
    let ghost given = keys@;
    let total: usize = items.len();
    let mut map: SortedMap<(K, usize), T> = SortedMap::new();
    let mut rest = keys;
    let mut left = items;
    let ghost mut n = all.len() as int;
    assert(given.subrange(0, n) =~= given);
    assert(all.subrange(0, n) =~= all);
    while left.len() > 0
        invariant
            left@.len() == rest@.len() == n,
            0 <= n <= all.len(),
            all.len() == total,
            models == given.map_values(|k: K| k.model()),
            given.len() == all.len(),
            left@ == all.subrange(0, n),
            rest@ == given.subrange(0, n),
            map.wf(),
            forall|p: (K::Model, usize)| #[trigger]
                map@.dom().contains(p) <==> marked::<K>(models).contains(p) && p.1 >= n,
            forall|p: (K::Model, usize)| #[trigger]
                map@.dom().contains(p) ==> map@[p] == all[p.1 as int],
        decreases left.len(),
    {
        let at: usize = left.len() - 1;
        let ghost before = map@;
        match (left.pop(), rest.pop()) {
            (Some(item), Some(key)) => {
                proof {
                    assert(item == all[at as int]);
                    assert(key == given[at as int]);
                    assert(models[at as int] == key.model());
                    assert(left@ =~= all.subrange(0, n - 1));
                    assert(rest@ =~= given.subrange(0, n - 1));
                }
                let ghost m = (key.model(), at);
                map.insert((key, at), item);
                proof {
                    assert(map@ == before.insert(m, item));
                    n = n - 1;
                    assert forall|p: (K::Model, usize)| #[trigger]
                        map@.dom().contains(p) <==> marked::<K>(models).contains(p) && p.1
                            >= n by {
                        assert(map@.dom().contains(p) <==> before.dom().contains(p) || p == m);
                        if marked::<K>(models).contains(p) && p.1 == at {
                            assert(p == m);
                        }
                    }
                }
            },
            _ => {
                assert(false);
            },
        }
    }
    proof {
        assert(map@.dom() =~= marked::<K>(models));
        lemma_map_keys_sorted(map);
        lemma_sorted_domain(map);
    }
    let ghost order = map.keys();
    let ghost vals = map.values();
    assert forall|i: int| 0 <= i < order.len() implies #[trigger] vals[i] == all[order[i].1 as int] by {
        assert(map@.dom().contains(order[i]));
    }
    let r = map.into_values();
    assert(r@ =~= stable_sorted::<K, T>(all, models));
    r
}

/// As many entries come out as went in, in the order of their keys, each from
/// some place; two of the same key in the order in which they were.
pub proof fn lemma_stable_sorted<K: OrderedKey, T>(items: Seq<T>, keys: Seq<K::Model>) -> (places:
    Seq<usize>)
    requires
        items.len() == keys.len(),
        keys.len() <= usize::MAX,
    ensures
        places.len() == items.len(),
        places.no_duplicates(),
        stable_sorted::<K, T>(items, keys).len() == items.len(),
        forall|i: int|
            0 <= i < places.len() ==> (#[trigger] places[i]) < items.len() && stable_sorted::<K, T>(
                items,
                keys,
            )[i] == items[places[i] as int],
        forall|i: int, j: int|
            0 <= i < j < places.len() ==> K::less(
                keys[(#[trigger] places[i]) as int],
                keys[(#[trigger] places[j]) as int],
            ) || (keys[places[i] as int] == keys[places[j] as int] && places[i] < places[j]),
{
    let set = marked::<K>(keys);
    let all = Seq::new(keys.len(), |i: int| (keys[i], i as usize));
    assert(set =~= all.to_set()) by {
        assert forall|p: (K::Model, usize)| #[trigger] set.contains(p) <==> all.to_set().contains(
            p,
        ) by {
            if set.contains(p) {
                assert(all[p.1 as int] == p);
            }
        }
    }
    vstd::seq_lib::seq_to_set_is_finite::<(K::Model, usize)>(all);
    assert(all.no_duplicates());
    all.unique_seq_to_set();
    lemma_sorted_exists::<(K, usize)>(set);
    let order = sorted_seq::<(K, usize)>(set);
    if order.len() > 0 {
        lemma_ascending_index::<(K, usize)>(order, 0);
    }
    order.unique_seq_to_set();
    let places = order.map_values(|p: (K::Model, usize)| p.1);
    assert forall|i: int| 0 <= i < order.len() implies set.contains(#[trigger] order[i]) by {
        assert(order.to_set().contains(order[i]));
    }
    assert forall|i: int| 0 <= i < places.len() implies (#[trigger] places[i]) < items.len()
        && stable_sorted::<K, T>(items, keys)[i] == items[places[i] as int] by {
        assert(set.contains(order[i]));
    }
    assert forall|i: int, j: int| 0 <= i < j < places.len() implies K::less(
        keys[(#[trigger] places[i]) as int],
        keys[(#[trigger] places[j]) as int],
    ) || (keys[places[i] as int] == keys[places[j] as int] && places[i] < places[j]) by {
        assert(set.contains(order[i]));
        assert(set.contains(order[j]));
        assert(<(K, usize)>::less(order[i], order[j]));
    }
    assert(places.no_duplicates()) by {
        assert forall|i: int, j: int| 0 <= i < places.len() && 0 <= j < places.len() && i
            != j implies places[i] != places[j] by {
            assert(set.contains(order[i]));
            assert(set.contains(order[j]));
            if places[i] == places[j] {
                assert(order[i] == order[j]);
            }
        }
    }
    places
}

proof fn lemma_hits_every_place(places: Seq<usize>, n: nat, p: int)
    requires
        places.len() == n,
        places.no_duplicates(),
        forall|i: int| 0 <= i < n ==> (#[trigger] places[i]) < n,
        0 <= p < n,
    ensures
        exists|i: int| 0 <= i < n && #[trigger] places[i] == p,
{
    let all = places.map_values(|u: usize| u as int);
    let range = vstd::set_lib::set_int_range(0, n as int);
    vstd::set_lib::lemma_int_range(0, n as int);
    assert(all.no_duplicates()) by {
        assert forall|i: int, j: int|
            0 <= i < all.len() && 0 <= j < all.len() && i != j implies all[i] != all[j] by {
            assert(places[i] != places[j]);
        }
    }
    all.unique_seq_to_set();
    let set = all.to_set();
    assert forall|x: int| set.contains(x) implies range.contains(x) by {
        let k = all.index_of(x);
        assert(places[k] < n);
    }
    vstd::set_lib::lemma_subset_equality(set, range);
    assert(range.contains(p));
    assert(set.contains(p));
    let k = all.index_of(p);
    assert(places[k] == p);
}

/// Sorting loses nothing and adds nothing: the same entries come out.
pub proof fn law_sorting_keeps_every_entry<K: OrderedKey, T>(items: Seq<T>, keys: Seq<K::Model>)
    requires
        items.len() == keys.len(),
        keys.len() <= usize::MAX,
    ensures
        stable_sorted::<K, T>(items, keys).len() == items.len(),
        forall|x: T| #[trigger]
            stable_sorted::<K, T>(items, keys).contains(x) <==> items.contains(x),
{
    let places = lemma_stable_sorted::<K, T>(items, keys);
    let out = stable_sorted::<K, T>(items, keys);
    assert forall|x: T| #[trigger] out.contains(x) <==> items.contains(x) by {
        if items.contains(x) {
            let p = items.index_of(x);
            lemma_hits_every_place(places, items.len(), p);
            let i = choose|i: int| 0 <= i < places.len() && #[trigger] places[i] == p;
            assert(out[i] == x);
        }
        if out.contains(x) {
            let i = out.index_of(x);
            assert(items[places[i] as int] == x);
        }
    }
}

} // verus!
