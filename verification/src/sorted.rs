//! A map that keeps its entries in ascending key order.

use crate::text::{
    lemma_text_less_transitive, lemma_text_order, text_before, text_less, views,
};
use crate::types::Iid;
use vstd::prelude::*;

verus! {

/// A key type with a total order.
pub trait OrderedKey: Sized {
    /// What a key stands for in contracts.
    type Model;

    spec fn model(&self) -> Self::Model;

    spec fn less(a: Self::Model, b: Self::Model) -> bool;

    proof fn order_laws(a: Self::Model, b: Self::Model)
        ensures
            !Self::less(a, a),
            Self::less(a, b) || Self::less(b, a) || a == b,
            !(Self::less(a, b) && Self::less(b, a)),
    ;

    proof fn transitive(a: Self::Model, b: Self::Model, c: Self::Model)
        requires
            Self::less(a, b),
            Self::less(b, c),
        ensures
            Self::less(a, c),
    ;

    fn before(&self, other: &Self) -> (r: bool)
        ensures
            r == Self::less(self.model(), other.model()),
    ;
}

impl OrderedKey for String {
    type Model = Seq<char>;

    open spec fn model(&self) -> Seq<char> {
        self@
    }

    open spec fn less(a: Seq<char>, b: Seq<char>) -> bool {
        text_less(a, b)
    }

    proof fn order_laws(a: Seq<char>, b: Seq<char>) {
        lemma_text_order(a, b);
    }

    proof fn transitive(a: Seq<char>, b: Seq<char>, c: Seq<char>) {
        lemma_text_less_transitive(a, b, c);
    }

    fn before(&self, other: &Self) -> (r: bool) {
        text_before(self.as_str(), other.as_str())
    }
}

impl OrderedKey for Iid {
    type Model = Iid;

    open spec fn model(&self) -> Iid {
        *self
    }

    open spec fn less(a: Iid, b: Iid) -> bool {
        a.bits < b.bits
    }

    proof fn order_laws(a: Iid, b: Iid) {
    }

    proof fn transitive(a: Iid, b: Iid, c: Iid) {
    }

    fn before(&self, other: &Self) -> (r: bool) {
        self.bits < other.bits
    }
}

impl OrderedKey for u64 {
    type Model = u64;

    open spec fn model(&self) -> u64 {
        *self
    }

    open spec fn less(a: u64, b: u64) -> bool {
        a < b
    }

    proof fn order_laws(a: u64, b: u64) {
    }

    proof fn transitive(a: u64, b: u64, c: u64) {
    }

    fn before(&self, other: &Self) -> (r: bool) {
        *self < *other
    }
}

impl OrderedKey for usize {
    type Model = usize;

    open spec fn model(&self) -> usize {
        *self
    }

    open spec fn less(a: usize, b: usize) -> bool {
        a < b
    }

    proof fn order_laws(a: usize, b: usize) {
    }

    proof fn transitive(a: usize, b: usize, c: usize) {
    }

    fn before(&self, other: &Self) -> (r: bool) {
        *self < *other
    }
}

impl OrderedKey for u8 {
    type Model = u8;

    open spec fn model(&self) -> u8 {
        *self
    }

    open spec fn less(a: u8, b: u8) -> bool {
        a < b
    }

    proof fn order_laws(a: u8, b: u8) {
    }

    proof fn transitive(a: u8, b: u8, c: u8) {
    }

    fn before(&self, other: &Self) -> (r: bool) {
        *self < *other
    }
}

impl<A: OrderedKey, B: OrderedKey> OrderedKey for (A, B) {
    type Model = (A::Model, B::Model);

    open spec fn model(&self) -> (A::Model, B::Model) {
        (self.0.model(), self.1.model())
    }

    /// By the first part, and where it is the same by the second.
    open spec fn less(a: (A::Model, B::Model), b: (A::Model, B::Model)) -> bool {
        A::less(a.0, b.0) || (a.0 == b.0 && B::less(a.1, b.1))
    }

    proof fn order_laws(a: (A::Model, B::Model), b: (A::Model, B::Model)) {
        A::order_laws(a.0, b.0);
        A::order_laws(a.0, a.0);
        B::order_laws(a.1, b.1);
        B::order_laws(a.1, a.1);
    }

    proof fn transitive(
        a: (A::Model, B::Model),
        b: (A::Model, B::Model),
        c: (A::Model, B::Model),
    ) {
        if A::less(a.0, b.0) && A::less(b.0, c.0) {
            A::transitive(a.0, b.0, c.0);
        }
        if a.0 == b.0 && b.0 == c.0 {
            A::order_laws(a.0, a.0);
            B::transitive(a.1, b.1, c.1);
        }
    }

    fn before(&self, other: &Self) -> (r: bool) {
        proof {
            A::order_laws(self.0.model(), other.0.model());
        }
        if self.0.before(&other.0) {
            true
        } else if other.0.before(&self.0) {
            false
        } else {
            self.1.before(&other.1)
        }
    }
}

/// The order of lists: by the first place at which they differ, and a list
/// before those that it begins.
pub open spec fn list_less<K: OrderedKey>(a: Seq<K::Model>, b: Seq<K::Model>) -> bool
    decreases a.len(),
{
    if b.len() == 0 {
        false
    } else if a.len() == 0 {
        true
    } else {
        K::less(a[0], b[0]) || (a[0] == b[0] && list_less::<K>(a.drop_first(), b.drop_first()))
    }
}

proof fn lemma_list_order<K: OrderedKey>(a: Seq<K::Model>, b: Seq<K::Model>)
    ensures
        !list_less::<K>(a, a),
        list_less::<K>(a, b) || list_less::<K>(b, a) || a == b,
        !(list_less::<K>(a, b) && list_less::<K>(b, a)),
    decreases a.len(),
{
    if a.len() == 0 {
        if b.len() == 0 {
            assert(a =~= b);
        }
    } else {
        K::order_laws(a[0], a[0]);
        lemma_list_order::<K>(a.drop_first(), a.drop_first());
        if b.len() > 0 {
            K::order_laws(a[0], b[0]);
            lemma_list_order::<K>(a.drop_first(), b.drop_first());
            if a[0] == b[0] && a.drop_first() == b.drop_first() {
                assert(a =~= seq![a[0]] + a.drop_first());
                assert(b =~= seq![b[0]] + b.drop_first());
            }
        }
    }
}

proof fn lemma_list_transitive<K: OrderedKey>(
    a: Seq<K::Model>,
    b: Seq<K::Model>,
    c: Seq<K::Model>,
)
    requires
        list_less::<K>(a, b),
        list_less::<K>(b, c),
    ensures
        list_less::<K>(a, c),
    decreases a.len(),
{
    if a.len() > 0 {
        if K::less(a[0], b[0]) && K::less(b[0], c[0]) {
            K::transitive(a[0], b[0], c[0]);
        }
        if a[0] == b[0] && b[0] == c[0] {
            K::order_laws(a[0], a[0]);
            lemma_list_transitive::<K>(a.drop_first(), b.drop_first(), c.drop_first());
        }
    }
}

impl<K: OrderedKey> OrderedKey for Vec<K> {
    type Model = Seq<K::Model>;

    open spec fn model(&self) -> Seq<K::Model> {
        self@.map_values(|k: K| k.model())
    }

    open spec fn less(a: Seq<K::Model>, b: Seq<K::Model>) -> bool {
        list_less::<K>(a, b)
    }

    proof fn order_laws(a: Seq<K::Model>, b: Seq<K::Model>) {
        lemma_list_order::<K>(a, b);
    }

    proof fn transitive(a: Seq<K::Model>, b: Seq<K::Model>, c: Seq<K::Model>) {
        lemma_list_transitive::<K>(a, b, c);
    }

    fn before(&self, other: &Self) -> (r: bool) {
        let ghost a = self.model();
        let ghost b = other.model();
        let mut i: usize = 0;
        proof {
            assert(a.subrange(0, a.len() as int) =~= a);
            assert(b.subrange(0, b.len() as int) =~= b);
        }
        while i < self.len() && i < other.len()
            invariant
                i <= self.len(),
                i <= other.len(),
                a == self.model(),
                b == other.model(),
                list_less::<K>(a, b) == list_less::<K>(
                    a.subrange(i as int, a.len() as int),
                    b.subrange(i as int, b.len() as int),
                ),
            decreases self.len() - i,
        {
            proof {
                let x = a.subrange(i as int, a.len() as int);
                let y = b.subrange(i as int, b.len() as int);
                assert(x[0] == a[i as int] && y[0] == b[i as int]);
                assert(x.drop_first() =~= a.subrange(i + 1, a.len() as int));
                assert(y.drop_first() =~= b.subrange(i + 1, b.len() as int));
                K::order_laws(a[i as int], b[i as int]);
            }
            if self[i].before(&other[i]) {
                return true;
            }
            if other[i].before(&self[i]) {
                return false;
            }
            i += 1;
        }
        i < other.len()
    }
}

/// A map from `K` to `V` whose entries are kept in ascending key order.
#[derive(Debug)]
pub struct SortedMap<K, V> {
    entries: Vec<(K, V)>,
}

/// Strictly ascending keys.
pub open spec fn ascending<K: OrderedKey>(keys: Seq<K::Model>) -> bool {
    forall|i: int, j: int|
        0 <= i < j < keys.len() ==> K::less(#[trigger] keys[i], #[trigger] keys[j])
}

/// The map that two parallel sequences spell.
pub open spec fn zip_map<M, V>(keys: Seq<M>, values: Seq<V>) -> Map<M, V> {
    Map::new(|m: M| keys.contains(m), |m: M| values[keys.index_of(m)])
}

impl<K: OrderedKey, V> SortedMap<K, V> {
    /// The keys in ascending order.
    pub closed spec fn keys(&self) -> Seq<K::Model> {
        self.entries@.map_values(|e: (K, V)| e.0.model())
    }

    /// The values, in the order of their keys.
    pub closed spec fn values(&self) -> Seq<V> {
        self.entries@.map_values(|e: (K, V)| e.1)
    }

    /// The keys are in strictly ascending order.
    pub open spec fn wf(&self) -> bool {
        ascending::<K>(self.keys()) && self.keys().len() == self.values().len()
    }
}

impl<K: OrderedKey, V> View for SortedMap<K, V> {
    type V = Map<K::Model, V>;

    open spec fn view(&self) -> Map<K::Model, V> {
        zip_map(self.keys(), self.values())
    }
}

/// Ascending keys are distinct, so each key has one place.
pub proof fn lemma_ascending_index<K: OrderedKey>(keys: Seq<K::Model>, i: int)
    requires
        ascending::<K>(keys),
        0 <= i < keys.len(),
    ensures
        keys.contains(keys[i]),
        keys.index_of(keys[i]) == i,
        keys.no_duplicates(),
{
    assert forall|a: int, b: int| 0 <= a < keys.len() && 0 <= b < keys.len() && a != b implies keys[a]
        != keys[b] by {
        if a < b {
            K::order_laws(keys[a], keys[b]);
        } else {
            K::order_laws(keys[b], keys[a]);
        }
    }
    let j = keys.index_of(keys[i]);
    assert(keys[j] == keys[i]);
}

/// The entry at each place is the map's entry for the key there.
pub proof fn lemma_zip_at<K: OrderedKey, V>(keys: Seq<K::Model>, values: Seq<V>, i: int)
    requires
        ascending::<K>(keys),
        keys.len() == values.len(),
        0 <= i < keys.len(),
    ensures
        zip_map(keys, values).dom().contains(keys[i]),
        zip_map(keys, values)[keys[i]] == values[i],
{
    lemma_ascending_index::<K>(keys, i);
}

proof fn lemma_zip_insert<K: OrderedKey, V>(
    keys: Seq<K::Model>,
    values: Seq<V>,
    i: int,
    k: K::Model,
    v: V,
)
    requires
        ascending::<K>(keys),
        keys.len() == values.len(),
        0 <= i <= keys.len(),
        forall|j: int| 0 <= j < i ==> K::less(#[trigger] keys[j], k),
        forall|j: int| i <= j < keys.len() ==> K::less(k, #[trigger] keys[j]),
    ensures
        ascending::<K>(keys.insert(i, k)),
        zip_map(keys.insert(i, k), values.insert(i, v)) == zip_map(keys, values).insert(k, v),
        !zip_map(keys, values).dom().contains(k),
{
    let nk = keys.insert(i, k);
    let nv = values.insert(i, v);
    assert forall|a: int, b: int| 0 <= a < b < nk.len() implies K::less(#[trigger] nk[a], #[trigger] nk[b]) by {
        let oa = if a < i { a } else { a - 1 };
        let ob = if b < i { b } else { b - 1 };
        if a != i && b != i {
            assert(nk[a] == keys[oa] && nk[b] == keys[ob]);
        } else if a == i {
            assert(nk[b] == keys[ob]);
        } else {
            assert(nk[a] == keys[oa]);
        }
    }
    let left = zip_map(nk, nv);
    let right = zip_map(keys, values).insert(k, v);
    assert(!keys.contains(k)) by {
        if keys.contains(k) {
            let j = keys.index_of(k);
            K::order_laws(k, k);
        }
    }
    assert(nk[i] == k);
    assert forall|m: K::Model| left.dom().contains(m) <==> right.dom().contains(m) by {
        if nk.contains(m) && m != k {
            let j = nk.index_of(m);
            let oj = if j < i { j } else { j - 1 };
            assert(keys[oj] == m);
        }
        if keys.contains(m) {
            let j = keys.index_of(m);
            let nj = if j < i { j } else { j + 1 };
            assert(nk[nj] == m);
        }
    }
    assert forall|m: K::Model| left.dom().contains(m) implies left[m] == right[m] by {
        let j = nk.index_of(m);
        lemma_ascending_index::<K>(nk, j);
        if m == k {
            lemma_ascending_index::<K>(nk, i);
        } else {
            let oj = if j < i { j } else { j - 1 };
            assert(keys[oj] == m);
            lemma_ascending_index::<K>(keys, oj);
        }
    }
    assert(left =~= right);
}

proof fn lemma_zip_update<K: OrderedKey, V>(keys: Seq<K::Model>, values: Seq<V>, i: int, v: V)
    requires
        ascending::<K>(keys),
        keys.len() == values.len(),
        0 <= i < keys.len(),
    ensures
        zip_map(keys, values.update(i, v)) == zip_map(keys, values).insert(keys[i], v),
{
    lemma_ascending_index::<K>(keys, i);
    assert(zip_map(keys, values.update(i, v)) =~= zip_map(keys, values).insert(keys[i], v));
}

proof fn lemma_zip_remove<K: OrderedKey, V>(keys: Seq<K::Model>, values: Seq<V>, i: int)
    requires
        ascending::<K>(keys),
        keys.len() == values.len(),
        0 <= i < keys.len(),
    ensures
        ascending::<K>(keys.remove(i)),
        zip_map(keys.remove(i), values.remove(i)) == zip_map(keys, values).remove(keys[i]),
{
    let nk = keys.remove(i);
    let nv = values.remove(i);
    assert forall|a: int, b: int| 0 <= a < b < nk.len() implies K::less(#[trigger] nk[a], #[trigger] nk[b]) by {
        let oa = if a < i { a } else { a + 1 };
        let ob = if b < i { b } else { b + 1 };
        assert(nk[a] == keys[oa] && nk[b] == keys[ob]);
    }
    let left = zip_map(nk, nv);
    let right = zip_map(keys, values).remove(keys[i]);
    lemma_ascending_index::<K>(keys, i);
    assert forall|m: K::Model| left.dom().contains(m) <==> right.dom().contains(m) by {
        if nk.contains(m) {
            let j = nk.index_of(m);
            let oj = if j < i { j } else { j + 1 };
            assert(keys[oj] == m);
            lemma_ascending_index::<K>(keys, oj);
        }
        if keys.contains(m) && m != keys[i] {
            let j = keys.index_of(m);
            let nj = if j < i { j } else { j - 1 };
            assert(nk[nj] == m);
        }
    }
    assert forall|m: K::Model| left.dom().contains(m) implies left[m] == right[m] by {
        let j = nk.index_of(m);
        lemma_ascending_index::<K>(nk, j);
        let oj = if j < i { j } else { j + 1 };
        assert(keys[oj] == m);
        lemma_ascending_index::<K>(keys, oj);
    }
    assert(left =~= right);
}

impl<K: OrderedKey, V> SortedMap<K, V> {
    /// An empty map.
    pub fn new() -> (r: Self)
        ensures
            r.wf(),
            r@ == Map::<K::Model, V>::empty(),
            r.keys() == Seq::<K::Model>::empty(),
            r.values() == Seq::<V>::empty(),
    {
        let r = SortedMap { entries: Vec::new() };
        assert(r.keys() =~= Seq::<K::Model>::empty());
        assert(r.values() =~= Seq::<V>::empty());
        assert(r@ =~= Map::<K::Model, V>::empty());
        r
    }

    /// The first place whose key is not before `key`.
    fn place(&self, key: &K) -> (r: usize)
        requires
            self.wf(),
        ensures
            r <= self.keys().len(),
            forall|j: int| 0 <= j < r ==> K::less(#[trigger] self.keys()[j], key.model()),
            forall|j: int| r <= j < self.keys().len() ==> !K::less(#[trigger] self.keys()[j], key.model()),
    {
        let mut i: usize = 0;
        while i < self.entries.len() && self.entries[i].0.before(key)
            invariant
                i <= self.entries.len(),
                self.wf(),
                forall|j: int| 0 <= j < i ==> K::less(#[trigger] self.keys()[j], key.model()),
            decreases self.entries.len() - i,
        {
            i += 1;
        }
        proof {
            assert forall|j: int| i <= j < self.keys().len() implies !K::less(#[trigger] self.keys()[j], key.model()) by {
                if K::less(self.keys()[j], key.model()) {
                    if i < j {
                        let ki = self.keys()[i as int];
                        K::transitive(ki, self.keys()[j], key.model());
                    }
                    assert(K::less(self.keys()[i as int], key.model()));
                }
            }
        }
        i
    }

    /// Where `key` stands, if it is there.
    fn find(&self, key: &K) -> (r: Option<usize>)
        requires
            self.wf(),
        ensures
            match r {
                Some(i) => i < self.keys().len() && self.keys()[i as int] == key.model(),
                None => !self.keys().contains(key.model()),
            },
    {
        let i = self.place(key);
        if i < self.entries.len() && !key.before(&self.entries[i].0) {
            proof {
                K::order_laws(self.keys()[i as int], key.model());
            }
            Some(i)
        } else {
            proof {
                if self.keys().contains(key.model()) {
                    let j = self.keys().index_of(key.model());
                    K::order_laws(key.model(), key.model());
                    assert(i <= j);
                    if i < j {
                        K::order_laws(self.keys()[i as int], key.model());
                        assert(K::less(self.keys()[i as int], self.keys()[j]));
                    }
                    assert(K::less(key.model(), self.keys()[i as int]));
                    assert(false);
                }
            }
            None
        }
    }

    /// The value of `key`.
    pub fn get(&self, key: &K) -> (r: Option<&V>)
        requires
            self.wf(),
        ensures
            match r {
                Some(v) => self@.dom().contains(key.model()) && *v == self@[key.model()],
                None => !self@.dom().contains(key.model()),
            },
    {
        match self.find(key) {
            Some(i) => {
                proof {
                    lemma_zip_at::<K, V>(self.keys(), self.values(), i as int);
                }
                Some(&self.entries[i].1)
            },
            None => None,
        }
    }

    /// Whether `key` has a value.
    pub fn contains_key(&self, key: &K) -> (r: bool)
        requires
            self.wf(),
        ensures
            r == self@.dom().contains(key.model()),
    {
        self.get(key).is_some()
    }

    /// Gives `key` the value `value` and returns the one it had.
    pub fn insert(&mut self, key: K, value: V) -> (r: Option<V>)
        requires
            old(self).wf(),
        ensures
            final(self).wf(),
            final(self)@ == old(self)@.insert(key.model(), value),
            r == (if old(self)@.dom().contains(key.model()) {
                Some(old(self)@[key.model()])
            } else {
                None
            }),
    {
        let ghost keys = self.keys();
        let ghost values = self.values();
        match self.find(&key) {
            Some(i) => {
                proof {
                    lemma_zip_at::<K, V>(keys, values, i as int);
                    lemma_zip_update::<K, V>(keys, values, i as int, value);
                }
                let mut entry = (key, value);
                let ghost before = self.entries@;
                std::mem::swap(&mut self.entries[i], &mut entry);
                assert(self.keys() =~= keys);
                assert(self.values() =~= values.update(i as int, value));
                Some(entry.1)
            },
            None => {
                let i = self.place(&key);
                proof {
                    assert forall|j: int| i <= j < keys.len() implies K::less(key.model(), #[trigger] keys[j]) by {
                        K::order_laws(key.model(), keys[j]);
                    }
                    lemma_zip_insert::<K, V>(keys, values, i as int, key.model(), value);
                }
                self.entries.insert(i, (key, value));
                assert(self.keys() =~= keys.insert(i as int, key.model()));
                assert(self.values() =~= values.insert(i as int, value));
                None
            },
        }
    }

    /// Takes `key` out of the map and returns its value.
    pub fn remove(&mut self, key: &K) -> (r: Option<V>)
        requires
            old(self).wf(),
        ensures
            final(self).wf(),
            final(self)@ == old(self)@.remove(key.model()),
            r == (if old(self)@.dom().contains(key.model()) {
                Some(old(self)@[key.model()])
            } else {
                None
            }),
    {
        let ghost keys = self.keys();
        let ghost values = self.values();
        match self.find(key) {
            Some(i) => {
                proof {
                    lemma_zip_at::<K, V>(keys, values, i as int);
                    lemma_zip_remove::<K, V>(keys, values, i as int);
                }
                let entry = self.entries.remove(i);
                assert(self.keys() =~= keys.remove(i as int));
                assert(self.values() =~= values.remove(i as int));
                Some(entry.1)
            },
            None => {
                assert(self@.remove(key.model()) =~= self@);
                None
            },
        }
    }

    /// The number of entries.
    pub fn len(&self) -> (r: usize)
        ensures
            r == self.keys().len(),
            r == self.values().len(),
    {
        self.entries.len()
    }

    /// The keys in ascending order.
    pub fn into_keys(self) -> (r: Vec<K>)
        ensures
            models(r@) == self.keys(),
    {
        let ghost all = self.entries@;
        let mut r: Vec<K> = Vec::new();
        for entry in it: self.entries
            invariant
                it.seq() == all,
                r@ == all.map_values(|e: (K, V)| e.0).subrange(0, it.index() as int),
        {
            assert(all[it.index() as int] == entry);
            r.push(entry.0);
            assert(r@ =~= all.map_values(|e: (K, V)| e.0).subrange(0, it.index() as int + 1));
        }
        assert(models(r@) =~= self.keys());
        r
    }

    /// The values in the order of their keys.
    pub fn into_values(self) -> (r: Vec<V>)
        ensures
            r@ == self.values(),
    {
        let ghost all = self.entries@;
        let mut r: Vec<V> = Vec::new();
        for entry in it: self.entries
            invariant
                it.seq() == all,
                r@ == all.map_values(|e: (K, V)| e.1).subrange(0, it.index() as int),
        {
            assert(all[it.index() as int] == entry);
            r.push(entry.1);
            assert(r@ =~= all.map_values(|e: (K, V)| e.1).subrange(0, it.index() as int + 1));
        }
        assert(r@ =~= self.values());
        r
    }

    /// The key at a place.
    pub fn key_at(&self, i: usize) -> (r: &K)
        requires
            i < self.keys().len(),
        ensures
            r.model() == self.keys()[i as int],
    {
        &self.entries[i].0
    }

    /// The value at a place.
    pub fn value_at(&self, i: usize) -> (r: &V)
        requires
            i < self.keys().len(),
        ensures
            *r == self.values()[i as int],
    {
        &self.entries[i].1
    }
}

/// A well-formed map has as many entries as keys in its domain, and its keys
/// are exactly the domain.
pub proof fn lemma_sorted_domain<K: OrderedKey, V>(m: SortedMap<K, V>)
    requires
        m.wf(),
    ensures
        m@.dom().finite(),
        m@.dom() == m.keys().to_set(),
        m@.dom().len() == m.keys().len(),
        forall|i: int| 0 <= i < m.keys().len() ==> m@.dom().contains(#[trigger] m.keys()[i])
            && m@[m.keys()[i]] == m.values()[i],
{
    assert(m@.dom() =~= m.keys().to_set());
    if m.keys().len() > 0 {
        lemma_ascending_index::<K>(m.keys(), 0);
    }
    m.keys().unique_seq_to_set();
    assert forall|i: int| 0 <= i < m.keys().len() implies m@.dom().contains(#[trigger] m.keys()[i])
        && m@[m.keys()[i]] == m.values()[i] by {
        lemma_zip_at::<K, V>(m.keys(), m.values(), i);
    }
}

/// A set that keeps its members in ascending order.
#[derive(Debug)]
pub struct SortedSet<K> {
    members: SortedMap<K, ()>,
}

impl<K: OrderedKey> View for SortedSet<K> {
    type V = Set<K::Model>;

    closed spec fn view(&self) -> Set<K::Model> {
        self.members@.dom()
    }
}

impl<K: OrderedKey> SortedSet<K> {
    pub closed spec fn wf(&self) -> bool {
        self.members.wf()
    }

    /// The members in ascending order.
    pub closed spec fn items(&self) -> Seq<K::Model> {
        self.members.keys()
    }

    pub fn new() -> (r: Self)
        ensures
            r.wf(),
            r@ == Set::<K::Model>::empty(),
            r.items() == Seq::<K::Model>::empty(),
    {
        let r = SortedSet { members: SortedMap::new() };
        assert(r@ =~= Set::<K::Model>::empty());
        r
    }

    pub fn contains(&self, key: &K) -> (r: bool)
        requires
            self.wf(),
        ensures
            r == self@.contains(key.model()),
    {
        self.members.contains_key(key)
    }

    /// Puts `key` in; returns whether it was not there.
    pub fn insert(&mut self, key: K) -> (r: bool)
        requires
            old(self).wf(),
        ensures
            final(self).wf(),
            final(self)@ == old(self)@.insert(key.model()),
            r == !old(self)@.contains(key.model()),
    {
        let ghost before = self.members@;
        let r = self.members.insert(key, ());
        assert(self@ =~= before.dom().insert(key.model()));
        r.is_none()
    }

    pub fn len(&self) -> (r: usize)
        requires
            self.wf(),
        ensures
            r == self@.len(),
            r == self.items().len(),
            self@.finite(),
    {
        proof {
            lemma_sorted_domain(self.members);
        }
        self.members.len()
    }

    /// The members in ascending order.
    pub fn into_items(self) -> (r: Vec<K>)
        ensures
            models(r@) == self.items(),
    {
        self.members.into_keys()
    }

    /// The member at a place.
    pub fn item_at(&self, i: usize) -> (r: &K)
        requires
            i < self.items().len(),
        ensures
            r.model() == self.items()[i as int],
    {
        self.members.key_at(i)
    }
}

/// The members of a well-formed set are listed once each, in ascending order.
pub proof fn lemma_set_items<K: OrderedKey>(s: SortedSet<K>)
    requires
        s.wf(),
    ensures
        ascending::<K>(s.items()),
        s.items().no_duplicates(),
        s.items().to_set() == s@,
        s@.finite(),
        s@.len() == s.items().len(),
{
    lemma_sorted_domain(s.members);
    if s.items().len() > 0 {
        lemma_ascending_index::<K>(s.items(), 0);
    }
}

/// The members of a set in ascending order.
pub open spec fn sorted_seq<K: OrderedKey>(s: Set<K::Model>) -> Seq<K::Model> {
    choose|k: Seq<K::Model>| ascending::<K>(k) && k.to_set() == s
}

/// The map that a list of keys and values spells. Of two values of a key the
/// later one counts.
pub open spec fn listed<K: OrderedKey, V>(list: Seq<(K, V)>) -> Map<K::Model, V>
    decreases list.len(),
{
    if list.len() == 0 {
        Map::empty()
    } else {
        listed(list.drop_last()).insert(list.last().0.model(), list.last().1)
    }
}

/// A list gives a key a value.
pub open spec fn lists<K: OrderedKey, V>(list: Seq<(K, V)>, key: K::Model, value: V) -> bool {
    exists|i: int|
        0 <= i < list.len() && (#[trigger] list[i]).0.model() == key && list[i].1 == value
}

/// A list gives no key twice.
pub open spec fn distinct_keys<K: OrderedKey, V>(list: Seq<(K, V)>) -> bool {
    forall|i: int, j: int|
        0 <= i < j < list.len() ==> (#[trigger] list[i]).0.model() != (
        #[trigger] list[j]).0.model()
}

/// A list without repeated keys spells what it gives.
pub proof fn lemma_listed<K: OrderedKey, V>(list: Seq<(K, V)>)
    requires
        distinct_keys(list),
    ensures
        listed(list).dom().finite(),
        forall|i: int|
            0 <= i < list.len() ==> listed(list).dom().contains(
                (#[trigger] list[i]).0.model(),
            ) && listed(list)[list[i].0.model()] == list[i].1,
        forall|m: K::Model| #[trigger]
            listed(list).dom().contains(m) ==> exists|i: int|
                0 <= i < list.len() && (#[trigger] list[i]).0.model() == m,
    decreases list.len(),
{
    if list.len() > 0 {
        let front = list.drop_last();
        let n = list.len() - 1;
        assert(distinct_keys(front)) by {
            assert forall|i: int, j: int| 0 <= i < j < front.len() implies (
            #[trigger] front[i]).0.model() != (#[trigger] front[j]).0.model() by {
                assert(list[i].0.model() != list[j].0.model());
            }
        }
        lemma_listed(front);
        assert forall|i: int| 0 <= i < list.len() implies listed(list).dom().contains(
            (#[trigger] list[i]).0.model(),
        ) && listed(list)[list[i].0.model()] == list[i].1 by {
            if i < n {
                assert(front[i] == list[i]);
                assert(list[i].0.model() != list[n].0.model());
            }
        }
        assert forall|m: K::Model| #[trigger] listed(list).dom().contains(
            m,
        ) implies exists|i: int| 0 <= i < list.len() && (#[trigger] list[i]).0.model() == m by {
            if m == list[n].0.model() {
                assert(list[n].0.model() == m);
            } else {
                let i = choose|i: int|
                    0 <= i < front.len() && (#[trigger] front[i]).0.model() == m;
                assert(list[i].0.model() == m);
            }
        }
    }
}

/// Two lists that give the same values spell the same map, in whatever order
/// they stand.
pub proof fn lemma_listed_same<K: OrderedKey, V>(a: Seq<(K, V)>, b: Seq<(K, V)>)
    requires
        distinct_keys(a),
        distinct_keys(b),
        forall|m: K::Model, v: V| #[trigger] lists(a, m, v) <==> lists(b, m, v),
    ensures
        listed(a) == listed(b),
{
    lemma_listed(a);
    lemma_listed(b);
    assert forall|m: K::Model|
        #![trigger listed(a).dom().contains(m)]
        (listed(a).dom().contains(m) <==> listed(b).dom().contains(m)) && (listed(
            a,
        ).dom().contains(m) ==> listed(a)[m] == listed(b)[m]) by {
        if listed(a).dom().contains(m) {
            let i = choose|i: int| 0 <= i < a.len() && (#[trigger] a[i]).0.model() == m;
            assert(lists(a, m, a[i].1));
            assert(lists(b, m, a[i].1));
            let j = choose|j: int|
                0 <= j < b.len() && (#[trigger] b[j]).0.model() == m && b[j].1 == a[i].1;
            assert(listed(b)[m] == b[j].1);
        }
        if listed(b).dom().contains(m) {
            let j = choose|j: int| 0 <= j < b.len() && (#[trigger] b[j]).0.model() == m;
            assert(lists(b, m, b[j].1));
            assert(lists(a, m, b[j].1));
            let i = choose|i: int|
                0 <= i < a.len() && (#[trigger] a[i]).0.model() == m && a[i].1 == b[j].1;
            assert(listed(a)[m] == a[i].1);
        }
    }
    assert(listed(a) =~= listed(b));
}

impl<K: OrderedKey, V> SortedMap<K, V> {
    /// The map that a list spells.
    pub fn from_list(list: Vec<(K, V)>) -> (r: Self)
        ensures
            r.wf(),
            r@ == listed(list@),
    {
        let ghost all = list@;
        let mut r: SortedMap<K, V> = SortedMap::new();
        for pair in it: list
            invariant
                it.seq() == all,
                r.wf(),
                r@ == listed(all.take(it.index() as int)),
        {
            let ghost i = it.index() as int;
            proof {
                assert(all[i] == pair);
                assert(all.take(i + 1).drop_last() =~= all.take(i));
                assert(all.take(i + 1).last() == pair);
            }
            let (key, value) = pair;
            r.insert(key, value);
        }
        assert(all.take(all.len() as int) =~= all);
        r
    }
}

/// Two ascending lists of the same members are the same list.
pub proof fn lemma_ascending_unique<K: OrderedKey>(a: Seq<K::Model>, b: Seq<K::Model>)
    requires
        ascending::<K>(a),
        ascending::<K>(b),
        a.to_set() == b.to_set(),
    ensures
        a == b,
{
    if a.len() > 0 {
        lemma_ascending_index::<K>(a, 0);
    }
    if b.len() > 0 {
        lemma_ascending_index::<K>(b, 0);
    }
    a.unique_seq_to_set();
    b.unique_seq_to_set();
    lemma_ascending_prefix::<K>(a, b, a.len() as int);
    assert(a =~= b);
}

proof fn lemma_ascending_prefix<K: OrderedKey>(a: Seq<K::Model>, b: Seq<K::Model>, n: int)
    requires
        ascending::<K>(a),
        ascending::<K>(b),
        a.to_set() == b.to_set(),
        a.len() == b.len(),
        0 <= n <= a.len(),
    ensures
        forall|i: int| 0 <= i < n ==> a[i] == b[i],
    decreases n,
{
    if n > 0 {
        let i = n - 1;
        lemma_ascending_prefix::<K>(a, b, i);
        lemma_ascending_step::<K>(a, b, i);
        lemma_ascending_step::<K>(b, a, i);
        K::order_laws(a[i], b[i]);
    }
}

proof fn lemma_ascending_step<K: OrderedKey>(a: Seq<K::Model>, b: Seq<K::Model>, i: int)
    requires
        ascending::<K>(a),
        ascending::<K>(b),
        a.to_set() == b.to_set(),
        a.len() == b.len(),
        0 <= i < a.len(),
        forall|j: int| 0 <= j < i ==> a[j] == b[j],
    ensures
        !K::less(a[i], b[i]),
{
    if K::less(a[i], b[i]) {
        assert(a.to_set().contains(a[i]));
        let j = b.index_of(a[i]);
        assert(b[j] == a[i]);
        if j < i {
            lemma_ascending_index::<K>(a, j);
            lemma_ascending_index::<K>(a, i);
        } else if j == i {
            K::order_laws(a[i], a[i]);
        } else {
            K::order_laws(b[i], b[j]);
        }
    }
}

/// An ascending list is the sorted list of its members.
pub proof fn lemma_sorted_seq<K: OrderedKey>(a: Seq<K::Model>)
    requires
        ascending::<K>(a),
    ensures
        sorted_seq::<K>(a.to_set()) == a,
{
    let k = sorted_seq::<K>(a.to_set());
    assert(ascending::<K>(a) && a.to_set() == a.to_set());
    lemma_ascending_unique::<K>(k, a);
}

/// A member more in an ascending list.
proof fn lemma_ascending_with<K: OrderedKey>(a: Seq<K::Model>, x: K::Model) -> (r: Seq<K::Model>)
    requires
        ascending::<K>(a),
        !a.contains(x),
    ensures
        ascending::<K>(r),
        forall|m: K::Model| #[trigger] r.contains(m) <==> a.contains(m) || m == x,
    decreases a.len(),
{
    if a.len() == 0 {
        let r = seq![x];
        assert(r[0] == x);
        r
    } else {
        let last = a.last();
        assert(a[a.len() - 1] == last);
        K::order_laws(last, x);
        if K::less(last, x) {
            let r = a.push(x);
            assert forall|i: int, j: int| 0 <= i < j < r.len() implies K::less(
                #[trigger] r[i],
                #[trigger] r[j],
            ) by {
                if j < a.len() {
                    assert(K::less(a[i], a[j]));
                } else if i < a.len() - 1 {
                    assert(K::less(a[i], a[a.len() - 1]));
                    K::transitive(a[i], last, x);
                }
            }
            assert forall|m: K::Model| #[trigger] r.contains(m) <==> a.contains(m) || m == x by {
                if a.contains(m) {
                    let k = a.index_of(m);
                    assert(r[k] == m);
                }
                assert(r[a.len() as int] == x);
                if r.contains(m) {
                    let k = r.index_of(m);
                    if k < a.len() {
                        assert(a[k] == m);
                    }
                }
            }
            r
        } else {
            let front = a.drop_last();
            assert forall|i: int, j: int| 0 <= i < j < front.len() implies K::less(
                #[trigger] front[i],
                #[trigger] front[j],
            ) by {
                assert(K::less(a[i], a[j]));
            }
            if front.contains(x) {
                let k = front.index_of(x);
                assert(a[k] == x);
            }
            let part = lemma_ascending_with::<K>(front, x);
            let r = part.push(last);
            assert forall|i: int, j: int| 0 <= i < j < r.len() implies K::less(
                #[trigger] r[i],
                #[trigger] r[j],
            ) by {
                if j < part.len() {
                    assert(K::less(part[i], part[j]));
                } else {
                    assert(part.contains(part[i]));
                    if part[i] != x {
                        let k = front.index_of(part[i]);
                        assert(K::less(a[k], a[a.len() - 1]));
                    }
                }
            }
            assert forall|m: K::Model| #[trigger] r.contains(m) <==> a.contains(m) || m == x by {
                assert(part.contains(m) <==> front.contains(m) || m == x);
                if front.contains(m) {
                    let k = front.index_of(m);
                    assert(a[k] == m);
                }
                if a.contains(m) {
                    let k = a.index_of(m);
                    if k < front.len() {
                        assert(front[k] == m);
                    }
                }
                if part.contains(m) {
                    let k = part.index_of(m);
                    assert(r[k] == m);
                }
                assert(r[part.len() as int] == last);
                if r.contains(m) {
                    let k = r.index_of(m);
                    if k < part.len() {
                        assert(part[k] == m);
                    }
                }
            }
            r
        }
    }
}

/// A finite set has its members in ascending order.
pub proof fn lemma_sorted_exists<K: OrderedKey>(s: Set<K::Model>)
    requires
        s.finite(),
    ensures
        ascending::<K>(sorted_seq::<K>(s)),
        sorted_seq::<K>(s).to_set() == s,
    decreases s.len(),
{
    if s.len() == 0 {
        let none = Seq::<K::Model>::empty();
        assert(none.to_set() =~= s);
        assert(ascending::<K>(none) && none.to_set() == s);
    } else {
        let x = s.choose();
        let rest = s.remove(x);
        lemma_sorted_exists::<K>(rest);
        let a = sorted_seq::<K>(rest);
        assert(a.contains(x) == a.to_set().contains(x));
        let r = lemma_ascending_with::<K>(a, x);
        assert(r.to_set() =~= s) by {
            assert forall|m: K::Model| #[trigger] r.to_set().contains(m) <==> s.contains(m) by {
                assert(r.to_set().contains(m) == r.contains(m));
                assert(a.to_set().contains(m) == a.contains(m));
            }
        }
        assert(ascending::<K>(r) && r.to_set() == s);
    }
}

/// A well-formed map lists its keys in sorted order.
pub proof fn lemma_map_keys_sorted<K: OrderedKey, V>(m: SortedMap<K, V>)
    requires
        m.wf(),
    ensures
        m.keys() == sorted_seq::<K>(m@.dom()),
{
    lemma_sorted_domain(m);
    lemma_sorted_seq::<K>(m.keys());
}

/// A well-formed set lists its members in sorted order.
pub proof fn lemma_set_items_sorted<K: OrderedKey>(s: SortedSet<K>)
    requires
        s.wf(),
    ensures
        s.items() == sorted_seq::<K>(s@),
{
    lemma_set_items(s);
    lemma_sorted_seq::<K>(s.items());
}

/// Puts every string of a list into the set.
pub fn extend_set(set: &mut SortedSet<String>, labels: &Vec<String>)
    requires
        old(set).wf(),
    ensures
        final(set).wf(),
        final(set)@ == old(set)@.union(views(labels@).to_set()),
{
    let mut i: usize = 0;
    let ghost all = views(labels@);
    assert(set@ =~= set@.union(all.subrange(0, 0).to_set()));
    while i < labels.len()
        invariant
            i <= labels.len(),
            all == views(labels@),
            set.wf(),
            set@ == old(set)@.union(all.subrange(0, i as int).to_set()),
        decreases labels.len() - i,
    {
        set.insert(labels[i].clone());
        proof {
            let shorter = all.subrange(0, i as int);
            let longer = all.subrange(0, i + 1);
            assert(longer =~= shorter.push(all[i as int]));
            assert(longer.to_set() =~= shorter.to_set().insert(all[i as int])) by {
                assert forall|x: Seq<char>| longer.to_set().contains(x) implies shorter.to_set().insert(all[i as int]).contains(x) by {
                    let j = longer.index_of(x);
                    if j < i {
                        assert(shorter[j] == x);
                    }
                }
                assert forall|x: Seq<char>| shorter.to_set().insert(all[i as int]).contains(x) implies longer.to_set().contains(x) by {
                    if x == all[i as int] {
                        assert(longer[i as int] == x);
                    } else {
                        let j = shorter.index_of(x);
                        assert(longer[j] == x);
                    }
                }
            }
            assert(set@ =~= old(set)@.union(longer.to_set()));
        }
        i += 1;
    }
    assert(all.subrange(0, i as int) =~= all);
}

/// Puts every member of another set into the set.
pub fn union_into(set: &mut SortedSet<String>, other: &SortedSet<String>)
    requires
        old(set).wf(),
        other.wf(),
    ensures
        final(set).wf(),
        final(set)@ == old(set)@.union(other@),
{
    let n = other.len();
    let mut i: usize = 0;
    let ghost items = other.items();
    proof {
        lemma_set_items(*other);
    }
    while i < n
        invariant
            i <= n,
            n == items.len(),
            items == other.items(),
            items.to_set() == other@,
            set.wf(),
            forall|x: Seq<char>| old(set)@.contains(x) ==> set@.contains(x),
            forall|x: Seq<char>| set@.contains(x) ==> old(set)@.contains(x) || other@.contains(x),
            forall|j: int| 0 <= j < i ==> set@.contains(#[trigger] items[j]),
        decreases n - i,
    {
        set.insert(other.item_at(i).clone());
        proof {
            assert(items.to_set().contains(items[i as int]));
        }
        i += 1;
    }
    assert(set@ =~= old(set)@.union(other@)) by {
        assert forall|x: Seq<char>| other@.contains(x) implies set@.contains(x) by {
            let j = items.index_of(x);
            assert(items[j] == x);
        }
    }
}

/// A copy of a set of strings.
pub fn clone_text_set(set: &SortedSet<String>) -> (r: SortedSet<String>)
    requires
        set.wf(),
    ensures
        r.wf(),
        r@ == set@,
{
    let mut r: SortedSet<String> = SortedSet::new();
    union_into(&mut r, set);
    assert(r@ =~= set@);
    r
}

/// What the keys of a list stand for.
pub open spec fn models<K: OrderedKey>(s: Seq<K>) -> Seq<K::Model> {
    s.map_values(|k: K| k.model())
}

/// No later key comes before an earlier one.
pub open spec fn ordered<K: OrderedKey>(s: Seq<K::Model>) -> bool {
    forall|i: int, j: int|
        0 <= i < j < s.len() ==> !K::less(#[trigger] s[j], #[trigger] s[i])
}

/// The keys of a list in order; equal keys all stay.
pub fn sort_keys<K: OrderedKey>(v: Vec<K>) -> (r: Vec<K>)
    ensures
        ordered::<K>(models(r@)),
        models(r@).to_multiset() == models(v@).to_multiset(),
{
    let ghost all = models(v@);
    let mut rest = v;
    let mut r: Vec<K> = Vec::new();
    assert(models(r@) + models(rest@) =~= all);
    while rest.len() > 0
        invariant
            ordered::<K>(models(r@)),
            (models(r@) + models(rest@)).to_multiset() == all.to_multiset(),
        decreases rest.len(),
    {
        let ghost rest0 = models(rest@);
        let ghost r0 = models(r@);
        let key = match rest.pop() {
            Some(k) => k,
            None => {
                assert(false);
                return r;
            },
        };
        assert(rest0 =~= models(rest@).push(key.model()));
        let mut p: usize = 0;
        while p < r.len() && !key.before(&r[p])
            invariant
                p <= r.len(),
                models(r@) == r0,
                forall|j: int| 0 <= j < p ==> !K::less(key.model(), #[trigger] r0[j]),
            decreases r.len() - p,
        {
            p += 1;
        }
        let ghost m = key.model();
        r.insert(p, key);
        proof {
            let r1 = models(r@);
            assert(r1 =~= r0.insert(p as int, m));
            assert forall|i: int, j: int| 0 <= i < j < r1.len() implies !K::less(#[trigger] r1[j], #[trigger] r1[i]) by {
                let oi = if i < p { i } else { i - 1 };
                let oj = if j < p { j } else { j - 1 };
                if i != p && j != p {
                    assert(r1[i] == r0[oi] && r1[j] == r0[oj]);
                } else if j == p {
                    assert(r1[i] == r0[i]);
                } else {
                    assert(r1[j] == r0[j - 1]);
                    assert(K::less(m, r0[p as int]));
                    if K::less(r0[j - 1], m) {
                        K::transitive(r0[j - 1], m, r0[p as int]);
                        if j - 1 > p {
                            assert(!K::less(r0[j - 1], r0[p as int]));
                        } else {
                            K::order_laws(r0[p as int], r0[p as int]);
                        }
                    }
                }
            }
            broadcast use vstd::seq_lib::group_to_multiset_ensures;

            vstd::seq_lib::lemma_multiset_commutative(r0, rest0);
            vstd::seq_lib::lemma_multiset_commutative(r1, models(rest@));
            assert(r1.to_multiset() =~= r0.to_multiset().insert(m));
            assert(rest0.to_multiset() =~= models(rest@).to_multiset().insert(m));
            assert((r1 + models(rest@)).to_multiset() =~= (r0 + rest0).to_multiset());
        }
    }
    assert(models(r@) + models(rest@) =~= models(r@));
    r
}

} // verus!
