//! A cache of decoded pages within a budget: what was not used for longest goes
//! first. Stored blocks never change, so nothing in it grows stale.

use crate::text::str_is;
use vstd::prelude::*;

verus! {

/// The budget where the configuration names none.
pub const DEFAULT_PAGE_CACHE_BYTES: usize = 268_435_456;

/// A page in the cache.
pub struct PageEntry<V> {
    pub object: String,
    pub offset: u64,
    pub value: V,
    pub bytes: usize,
    /// When it was last used.
    pub last_used: u64,
}

impl<V> PageEntry<V> {
    pub open spec fn is_page(&self, object: Seq<char>, offset: u64) -> bool {
        self.object@ == object && self.offset == offset
    }
}

/// The cache.
pub struct PageCache<V> {
    pub max_bytes: usize,
    pub entries: Vec<PageEntry<V>>,
    pub bytes: usize,
    pub tick: u64,
}

/// How large some pages are.
pub open spec fn total<V>(entries: Seq<PageEntry<V>>) -> int
    decreases entries.len(),
{
    if entries.len() == 0 {
        0
    } else {
        total(entries.drop_last()) + entries.last().bytes
    }
}

/// The page that was not used for longest.
pub open spec fn is_oldest<V>(entries: Seq<PageEntry<V>>, i: int) -> bool {
    0 <= i < entries.len() && forall|k: int|
        0 <= k < entries.len() && k != i ==> entries[i].last_used < (#[trigger] entries[k]).last_used
}

/// No two uses at the same time.
pub open spec fn distinct_times<V>(entries: Seq<PageEntry<V>>) -> bool {
    forall|i: int, j: int|
        0 <= i < j < entries.len() ==> (#[trigger] entries[i]).last_used != (
        #[trigger] entries[j]).last_used
}

/// No page twice.
pub open spec fn distinct_pages<V>(entries: Seq<PageEntry<V>>) -> bool {
    forall|i: int, j: int|
        0 <= i < j < entries.len() ==> !((#[trigger] entries[i]).object@ == (
        #[trigger] entries[j]).object@ && entries[i].offset == entries[j].offset)
}

/// What stays within a budget: the oldest pages go until the rest fits.
pub open spec fn evicted<V>(entries: Seq<PageEntry<V>>, max: int) -> Seq<PageEntry<V>>
    decreases entries.len(),
{
    if total(entries) <= max || entries.len() == 0 {
        entries
    } else {
        let i = choose|i: int| is_oldest(entries, i);
        if 0 <= i < entries.len() {
            evicted(entries.remove(i), max)
        } else {
            entries
        }
    }
}

/// The place of a page.
pub open spec fn place_of<V>(
    entries: Seq<PageEntry<V>>,
    object: Seq<char>,
    offset: u64,
) -> Option<int> {
    if exists|i: int| 0 <= i < entries.len() && (#[trigger] entries[i]).is_page(object, offset) {
        Some(
            choose|i: int| 0 <= i < entries.len() && (#[trigger] entries[i]).is_page(object, offset),
        )
    } else {
        None
    }
}

/// What is kept when a page is put in: it takes the place of an earlier one, and
/// the oldest pages go until the rest fits.
pub open spec fn kept_with<V>(before: PageCache<V>, e: PageEntry<V>) -> Seq<PageEntry<V>> {
    let others = match place_of(before.entries@, e.object@, e.offset) {
        Some(i) => before.entries@.remove(i),
        None => before.entries@,
    };
    evicted(others.push(e), before.max_bytes as int)
}

/// A page has one place.
pub proof fn lemma_place<V>(entries: Seq<PageEntry<V>>, object: Seq<char>, offset: u64, i: int)
    requires
        distinct_pages(entries),
        0 <= i < entries.len(),
        entries[i].is_page(object, offset),
    ensures
        place_of(entries, object, offset) == Some(i),
{
    let k = choose|k: int|
        0 <= k < entries.len() && (#[trigger] entries[k]).is_page(object, offset);
    if k < i {
        assert(!(entries[k].object@ == entries[i].object@ && entries[k].offset
            == entries[i].offset));
    } else if i < k {
        assert(!(entries[i].object@ == entries[k].object@ && entries[i].offset
            == entries[k].offset));
    }
}

pub proof fn lemma_total_nonneg<V>(entries: Seq<PageEntry<V>>)
    ensures
        total(entries) >= 0,
    decreases entries.len(),
{
    if entries.len() > 0 {
        lemma_total_nonneg(entries.drop_last());
    }
}

pub proof fn lemma_total_remove<V>(entries: Seq<PageEntry<V>>, i: int)
    requires
        0 <= i < entries.len(),
    ensures
        total(entries.remove(i)) == total(entries) - entries[i].bytes,
    decreases entries.len(),
{
    let rest = entries.remove(i);
    if i == entries.len() - 1 {
        assert(rest =~= entries.drop_last());
    } else {
        lemma_total_remove(entries.drop_last(), i);
        assert(rest.drop_last() =~= entries.drop_last().remove(i));
        assert(rest.last() == entries.last());
    }
}

impl<V> PageCache<V> {
    pub open spec fn wf(&self) -> bool {
        &&& self.bytes == total(self.entries@)
        &&& self.bytes <= self.max_bytes
        &&& distinct_pages(self.entries@)
        &&& distinct_times(self.entries@)
        &&& forall|i: int|
            0 <= i < self.entries@.len() ==> (#[trigger] self.entries@[i]).last_used <= self.tick
        &&& (self.max_bytes == 0 ==> self.entries@.len() == 0)
    }

    pub fn new(max_bytes: usize) -> (r: PageCache<V>)
        ensures
            r.wf(),
            r.max_bytes == max_bytes,
            r.entries@ == Seq::<PageEntry<V>>::empty(),
            r.tick == 0,
    {
        PageCache { max_bytes, entries: Vec::new(), bytes: 0, tick: 0 }
    }

    pub fn len(&self) -> (r: usize)
        ensures
            r == self.entries@.len(),
    {
        self.entries.len()
    }

    fn find(&self, object: &str, offset: u64) -> (r: Option<usize>)
        requires
            self.wf(),
        ensures
            match r {
                Some(i) => i < self.entries@.len() && self.entries@[i as int].is_page(
                    object@,
                    offset,
                ) && place_of(self.entries@, object@, offset) == Some(i as int),
                None => place_of(self.entries@, object@, offset) is None,
            },
    {
        let mut i: usize = 0;
        while i < self.entries.len()
            invariant
                i <= self.entries.len(),
                self.wf(),
                forall|k: int|
                    0 <= k < i ==> !(#[trigger] self.entries@[k]).is_page(object@, offset),
            decreases self.entries.len() - i,
        {
            let e = &self.entries[i];
            if e.offset == offset && str_is(e.object.as_str(), object) {
                proof {
                    lemma_place(self.entries@, object@, offset, i as int);
                }
                return Some(i);
            }
            i += 1;
        }
        None
    }

    /// The page, if it is there; it counts as used now.
    pub fn get(&mut self, object: &str, offset: u64) -> (r: Option<&V>)
        requires
            old(self).wf(),
            old(self).tick < u64::MAX,
        ensures
            final(self).wf(),
            final(self).max_bytes == old(self).max_bytes,
            if old(self).max_bytes == 0 {
                r is None && *final(self) == *old(self)
            } else {
                &&& final(self).tick == old(self).tick + 1
                &&& match place_of(old(self).entries@, object@, offset) {
                    None => r is None && final(self).entries@ == old(self).entries@,
                    Some(i) => {
                        &&& (r matches Some(v) && *v == old(self).entries@[i].value)
                        &&& final(self).entries@ == old(self).entries@.update(
                            i,
                            PageEntry { last_used: final(self).tick, ..old(self).entries@[i] },
                        )
                    },
                }
            },
    {
        if self.max_bytes == 0 {
            return None;
        }
        let ghost before = self.entries@;
        let found = self.find(object, offset);
        self.tick = self.tick + 1;
        match found {
            None => None,
            Some(i) => {
                let tick: u64 = self.tick;
                self.entries[i].last_used = tick;
                proof {
                    let after = self.entries@;
                    let changed = PageEntry { last_used: tick, ..before[i as int] };
                    assert(after =~= before.update(i as int, changed));
                    lemma_total_update(before, i as int, changed);
                    assert(distinct_pages(after)) by {
                        assert forall|a: int, b: int| 0 <= a < b < after.len() implies !((
                        #[trigger] after[a]).object@ == (#[trigger] after[b]).object@
                            && after[a].offset == after[b].offset) by {
                            assert(!(before[a].object@ == before[b].object@ && before[a].offset
                                == before[b].offset));
                        }
                    }
                    assert(distinct_times(after)) by {
                        assert forall|a: int, b: int| 0 <= a < b < after.len() implies (
                        #[trigger] after[a]).last_used != (#[trigger] after[b]).last_used by {
                            assert(before[a].last_used != before[b].last_used);
                            assert(before[a].last_used <= self.tick - 1);
                            assert(before[b].last_used <= self.tick - 1);
                        }
                    }
                }
                Some(&self.entries[i].value)
            },
        }
    }

    /// Puts a whole page in. One that is larger than the budget is not kept;
    /// others go until all that is kept fits.
    pub fn insert(&mut self, object: String, offset: u64, value: V, bytes: usize)
        requires
            old(self).wf(),
            old(self).tick < u64::MAX,
        ensures
            final(self).wf(),
            final(self).max_bytes == old(self).max_bytes,
            if old(self).max_bytes == 0 || bytes > old(self).max_bytes {
                *final(self) == *old(self)
            } else {
                &&& final(self).tick == old(self).tick + 1
                &&& final(self).entries@ == kept_with(
                    *old(self),
                    PageEntry { object, offset, value, bytes, last_used: final(self).tick },
                )
            },
    {
        if self.max_bytes == 0 || bytes > self.max_bytes {
            return ;
        }
        let ghost before = self.entries@;
        let ghost before_tick = self.tick;
        let found = self.find(object.as_str(), offset);
        self.tick = self.tick + 1;
        let tick: u64 = self.tick;
        match found {
            Some(i) => {
                proof {
                    lemma_total_remove(before, i as int);
                    lemma_total_nonneg(before.remove(i as int));
                }
                let old_entry = self.entries.remove(i);
                self.bytes = self.bytes - old_entry.bytes;
            },
            None => {},
        }
        let ghost others = self.entries@;
        proof {
            let place: Option<int> = match found {
                Some(i) => Some(i as int),
                None => None,
            };
            lemma_without(before, others, place, object@, offset);
        }
        let entry = PageEntry { object, offset, value, bytes, last_used: tick };
        let ghost entry0 = entry;
        self.entries.push(entry);
        proof {
            lemma_with_new(others, entry0, before_tick);
        }
        let rest: usize = self.bytes;
        self.shrink(bytes, rest);
    }

    /// Lets the oldest pages go until the rest fits. The pages are as large as
    /// `a` and `b` together.
    fn shrink(&mut self, a: usize, b: usize)
        requires
            a + b == total(old(self).entries@),
            distinct_pages(old(self).entries@),
            distinct_times(old(self).entries@),
            old(self).max_bytes > 0,
            forall|i: int|
                0 <= i < old(self).entries@.len() ==> (#[trigger] old(
                    self,
                ).entries@[i]).last_used <= old(self).tick,
        ensures
            final(self).wf(),
            final(self).max_bytes == old(self).max_bytes,
            final(self).tick == old(self).tick,
            final(self).entries@ == evicted(old(self).entries@, old(self).max_bytes as int),
    {
        let max: u128 = self.max_bytes as u128;
        let mut size: u128 = a as u128 + b as u128;
        while size > max && self.entries.len() > 0
            invariant
                size == total(self.entries@),
                max == self.max_bytes,
                self.max_bytes == old(self).max_bytes,
                self.max_bytes > 0,
                self.tick == old(self).tick,
                distinct_pages(self.entries@),
                distinct_times(self.entries@),
                forall|i: int|
                    0 <= i < self.entries@.len() ==> (#[trigger] self.entries@[i]).last_used
                        <= self.tick,
                evicted(self.entries@, max as int) == evicted(old(self).entries@, max as int),
            decreases self.entries.len(),
        {
            let i = self.oldest();
            let ghost now = self.entries@;
            proof {
                let c = choose|c: int| is_oldest(now, c);
                assert(c == i) by {
                    if c != i {
                        assert(now[c].last_used < now[i as int].last_used);
                        assert(now[i as int].last_used < now[c].last_used);
                    }
                }
                lemma_total_remove(now, i as int);
                lemma_total_nonneg(now.remove(i as int));
                lemma_removed(now, i as int);
            }
            let gone = self.entries.remove(i);
            size = size - gone.bytes as u128;
        }
        proof {
            if self.entries@.len() == 0 {
                assert(total(self.entries@) == 0);
            }
        }
        self.bytes = size as usize;
    }

    fn oldest(&self) -> (r: usize)
        requires
            self.entries@.len() > 0,
            distinct_times(self.entries@),
        ensures
            is_oldest(self.entries@, r as int),
    {
        let mut at: usize = 0;
        let mut i: usize = 1;
        while i < self.entries.len()
            invariant
                1 <= i <= self.entries.len(),
                at < i,
                distinct_times(self.entries@),
                forall|k: int|
                    0 <= k < i && k != at ==> self.entries@[at as int].last_used < (
                    #[trigger] self.entries@[k]).last_used,
            decreases self.entries.len() - i,
        {
            assert(self.entries@[at as int].last_used != self.entries@[i as int].last_used);
            if self.entries[i].last_used < self.entries[at].last_used {
                at = i;
            }
            i += 1;
        }
        at
    }
}

proof fn lemma_total_update<V>(entries: Seq<PageEntry<V>>, i: int, e: PageEntry<V>)
    requires
        0 <= i < entries.len(),
        e.bytes == entries[i].bytes,
    ensures
        total(entries.update(i, e)) == total(entries),
    decreases entries.len(),
{
    let after = entries.update(i, e);
    if i == entries.len() - 1 {
        assert(after.drop_last() =~= entries.drop_last());
    } else {
        lemma_total_update(entries.drop_last(), i, e);
        assert(after.drop_last() =~= entries.drop_last().update(i, e));
        assert(after.last() == entries.last());
    }
}

proof fn lemma_removed<V>(entries: Seq<PageEntry<V>>, i: int)
    requires
        0 <= i < entries.len(),
        distinct_pages(entries),
        distinct_times(entries),
    ensures
        distinct_pages(entries.remove(i)),
        distinct_times(entries.remove(i)),
        forall|k: int|
            0 <= k < entries.len() - 1 ==> #[trigger] entries.remove(i)[k] == entries[if k < i {
                k
            } else {
                k + 1
            }],
{
    let rest = entries.remove(i);
    assert forall|a: int, b: int| 0 <= a < b < rest.len() implies !((#[trigger] rest[a]).object@
        == (#[trigger] rest[b]).object@ && rest[a].offset == rest[b].offset) && rest[a].last_used
        != rest[b].last_used by {
        let x = if a < i {
            a
        } else {
            a + 1
        };
        let y = if b < i {
            b
        } else {
            b + 1
        };
        assert(rest[a] == entries[x] && rest[b] == entries[y]);
        assert(!(entries[x].object@ == entries[y].object@ && entries[x].offset
            == entries[y].offset));
        assert(entries[x].last_used != entries[y].last_used);
    }
}

/// The other pages and a new one that is used later than all of them.
proof fn lemma_with_new<V>(others: Seq<PageEntry<V>>, e: PageEntry<V>, tick: u64)
    requires
        distinct_pages(others),
        distinct_times(others),
        forall|k: int|
            0 <= k < others.len() ==> !(#[trigger] others[k]).is_page(e.object@, e.offset)
                && others[k].last_used <= tick,
        tick < e.last_used,
    ensures
        distinct_pages(others.push(e)),
        distinct_times(others.push(e)),
        total(others.push(e)) == total(others) + e.bytes,
        forall|k: int|
            0 <= k < others.len() + 1 ==> (#[trigger] others.push(e)[k]).last_used <= e.last_used,
{
    let all = others.push(e);
    assert(all.drop_last() =~= others);
    assert(distinct_pages(all)) by {
        assert forall|a: int, b: int| 0 <= a < b < all.len() implies !((
        #[trigger] all[a]).object@ == (#[trigger] all[b]).object@ && all[a].offset
            == all[b].offset) by {
            if b < others.len() {
                assert(!(others[a].object@ == others[b].object@ && others[a].offset
                    == others[b].offset));
            } else {
                assert(!others[a].is_page(e.object@, e.offset));
            }
        }
    }
    assert(distinct_times(all)) by {
        assert forall|a: int, b: int| 0 <= a < b < all.len() implies (
        #[trigger] all[a]).last_used != (#[trigger] all[b]).last_used by {
            if b < others.len() {
                assert(others[a].last_used != others[b].last_used);
            } else {
                assert(others[a].last_used <= tick);
            }
        }
    }
}

/// The other pages, once a page is out of the way.
proof fn lemma_without<V>(
    before: Seq<PageEntry<V>>,
    others: Seq<PageEntry<V>>,
    found: Option<int>,
    object: Seq<char>,
    offset: u64,
)
    requires
        distinct_pages(before),
        distinct_times(before),
        match found {
            Some(i) => 0 <= i < before.len() && before[i].is_page(object, offset) && others
                == before.remove(i),
            None => place_of(before, object, offset) is None && others == before,
        },
    ensures
        distinct_pages(others),
        distinct_times(others),
        forall|k: int|
            0 <= k < others.len() ==> !(#[trigger] others[k]).is_page(object, offset)
                && exists|j: int| 0 <= j < before.len() && others[k] == #[trigger] before[j],
{
    match found {
        Some(i) => {
            lemma_removed(before, i);
            assert forall|k: int| 0 <= k < others.len() implies !(#[trigger] others[k]).is_page(
                object,
                offset,
            ) && exists|j: int| 0 <= j < before.len() && others[k] == #[trigger] before[j] by {
                let j = if k < i {
                    k
                } else {
                    k + 1
                };
                assert(others[k] == before[j]);
                if j < i {
                    assert(!(before[j].object@ == before[i].object@ && before[j].offset
                        == before[i].offset));
                } else {
                    assert(!(before[i].object@ == before[j].object@
                        && before[i].offset == before[j].offset));
                }
            }
        },
        None => {
            assert forall|k: int| 0 <= k < others.len() implies !(#[trigger] others[k]).is_page(
                object,
                offset,
            ) && exists|j: int| 0 <= j < before.len() && others[k] == #[trigger] before[j] by {
                assert(others[k] == before[k]);
            }
        },
    }
}

/// The page that was used last stays, if it fits at all.
pub proof fn law_last_used_stays<V>(entries: Seq<PageEntry<V>>, max: int, i: int)
    requires
        distinct_times(entries),
        0 <= i < entries.len(),
        forall|k: int|
            0 <= k < entries.len() && k != i ==> (#[trigger] entries[k]).last_used
                < entries[i].last_used,
        entries[i].bytes <= max,
    ensures
        evicted(entries, max).contains(entries[i]),
    decreases entries.len(),
{
    if total(entries) <= max {
        assert(entries[i] == entries[i]);
    } else {
        lemma_oldest_exists(entries);
        let c = choose|c: int| is_oldest(entries, c);
        if c == i {
            if entries.len() == 1 {
                lemma_total_remove(entries, 0);
                assert(entries.remove(0).len() == 0);
                assert(total(entries) == entries[0].bytes);
            } else {
                let k = if i == 0 {
                    1int
                } else {
                    0
                };
                assert(entries[k].last_used < entries[i].last_used);
                assert(entries[i].last_used < entries[k].last_used);
            }
        } else {
            let rest = entries.remove(c);
            let j = if i < c {
                i
            } else {
                i - 1
            };
            assert(rest[j] == entries[i]);
            assert(distinct_times(rest)) by {
                assert forall|a: int, b: int| 0 <= a < b < rest.len() implies (
                #[trigger] rest[a]).last_used != (#[trigger] rest[b]).last_used by {
                    let x = if a < c {
                        a
                    } else {
                        a + 1
                    };
                    let y = if b < c {
                        b
                    } else {
                        b + 1
                    };
                    assert(rest[a] == entries[x] && rest[b] == entries[y]);
                    assert(entries[x].last_used != entries[y].last_used);
                }
            }
            assert forall|k: int| 0 <= k < rest.len() && k != j implies (
            #[trigger] rest[k]).last_used < rest[j].last_used by {
                let x = if k < c {
                    k
                } else {
                    k + 1
                };
                assert(rest[k] == entries[x]);
            }
            law_last_used_stays(rest, max, j);
        }
    }
}

/// The oldest page, and what is left without it.
proof fn lemma_evicts_oldest<V>(entries: Seq<PageEntry<V>>, max: int) -> (c: int)
    requires
        distinct_times(entries),
        total(entries) > max,
        entries.len() > 0,
    ensures
        is_oldest(entries, c),
        evicted(entries, max) == evicted(entries.remove(c), max),
        distinct_times(entries.remove(c)),
        total(entries.remove(c)) == total(entries) - entries[c].bytes,
        forall|e: PageEntry<V>|
            entries.contains(e) <==> (#[trigger] entries.remove(c).contains(e)) || e == entries[c],
        !entries.remove(c).contains(entries[c]),
{
    lemma_oldest_exists(entries);
    let c = choose|c: int| is_oldest(entries, c);
    let rest = entries.remove(c);
    lemma_total_remove(entries, c);
    assert forall|k: int| 0 <= k < rest.len() implies #[trigger] rest[k] == entries[if k < c {
        k
    } else {
        k + 1
    }] by {}
    assert(distinct_times(rest)) by {
        assert forall|a: int, b: int| 0 <= a < b < rest.len() implies (
        #[trigger] rest[a]).last_used != (#[trigger] rest[b]).last_used by {
            let x = if a < c {
                a
            } else {
                a + 1
            };
            let y = if b < c {
                b
            } else {
                b + 1
            };
            assert(rest[a] == entries[x] && rest[b] == entries[y]);
            assert(entries[x].last_used != entries[y].last_used);
        }
    }
    assert forall|e: PageEntry<V>|
        entries.contains(e) <==> (#[trigger] rest.contains(e)) || e == entries[c] by {
        if entries.contains(e) {
            let k = entries.index_of(e);
            if k < c {
                assert(rest[k] == e);
            } else if k > c {
                assert(rest[k - 1] == e);
            }
        }
        if rest.contains(e) {
            let k = rest.index_of(e);
            let x = if k < c {
                k
            } else {
                k + 1
            };
            assert(entries[x] == e);
        }
    }
    if rest.contains(entries[c]) {
        let k = rest.index_of(entries[c]);
        let x = if k < c {
            k
        } else {
            k + 1
        };
        assert(rest[k] == entries[x]);
        assert(entries[c].last_used < entries[x].last_used);
    }
    c
}

/// What stays was there before, and fits.
pub proof fn law_what_stays_fits<V>(entries: Seq<PageEntry<V>>, max: int)
    requires
        distinct_times(entries),
        0 <= max,
    ensures
        total(evicted(entries, max)) <= max,
        forall|e: PageEntry<V>| #[trigger]
            evicted(entries, max).contains(e) ==> entries.contains(e),
    decreases entries.len(),
{
    if entries.len() > 0 && total(entries) > max {
        let c = lemma_evicts_oldest(entries, max);
        law_what_stays_fits(entries.remove(c), max);
        assert forall|e: PageEntry<V>| #[trigger] evicted(entries, max).contains(
            e,
        ) implies entries.contains(e) by {
            assert(entries.remove(c).contains(e));
        }
    }
}

/// Every page that goes was used before every page that stays.
pub proof fn law_least_recently_used_go<V>(
    entries: Seq<PageEntry<V>>,
    max: int,
    gone: PageEntry<V>,
    kept: PageEntry<V>,
)
    requires
        distinct_times(entries),
        0 <= max,
        entries.contains(gone),
        !evicted(entries, max).contains(gone),
        evicted(entries, max).contains(kept),
    ensures
        gone.last_used < kept.last_used,
    decreases entries.len(),
{
    if entries.len() > 0 && total(entries) > max {
        let c = lemma_evicts_oldest(entries, max);
        let rest = entries.remove(c);
        if rest.contains(gone) {
            law_least_recently_used_go(rest, max, gone, kept);
        } else {
            law_what_stays_fits(rest, max);
            assert(rest.contains(kept));
            assert(entries.contains(kept));
            let k = entries.index_of(kept);
            assert(k != c);
            assert(entries[c].last_used < entries[k].last_used);
        }
    }
}

/// No more pages go than must: with the last of them that went, what stays
/// would not fit.
pub proof fn law_no_more_go_than_needed<V>(
    entries: Seq<PageEntry<V>>,
    max: int,
    last: PageEntry<V>,
)
    requires
        distinct_times(entries),
        0 <= max,
        entries.contains(last),
        !evicted(entries, max).contains(last),
        forall|e: PageEntry<V>|
            #![trigger evicted(entries, max).contains(e)]
            entries.contains(e) && !evicted(entries, max).contains(e) ==> e.last_used
                <= last.last_used,
    ensures
        total(evicted(entries, max)) + last.bytes > max,
    decreases entries.len(),
{
    if entries.len() > 0 && total(entries) > max {
        let c = lemma_evicts_oldest(entries, max);
        let rest = entries.remove(c);
        let stays = evicted(entries, max);
        if total(rest) <= max || rest.len() == 0 {
            assert(stays == rest);
            if rest.contains(last) {
                assert(false);
            }
        } else {
            let d = lemma_evicts_oldest(rest, max);
            law_what_stays_fits(rest.remove(d), max);
            let next = rest[d];
            assert(rest.contains(next));
            assert(entries.contains(next));
            assert(!stays.contains(next)) by {
                if stays.contains(next) {
                    assert(rest.remove(d).contains(next));
                }
            }
            assert(next.last_used <= last.last_used);
            if !rest.contains(last) {
                assert(last == entries[c]);
                let k = entries.index_of(next);
                assert(k != c) by {
                    assert(!rest.contains(entries[c]));
                }
                assert(entries[c].last_used < entries[k].last_used);
            }
            assert forall|e: PageEntry<V>|
                #![trigger evicted(rest, max).contains(e)]
                rest.contains(e) && !evicted(rest, max).contains(e) implies e.last_used
                <= last.last_used by {
                assert(entries.contains(e));
                assert(!stays.contains(e));
            }
            law_no_more_go_than_needed(rest, max, last);
        }
    }
}

/// The pages besides one that is put in.
spec fn other_pages<V>(before: PageCache<V>, e: PageEntry<V>) -> Seq<PageEntry<V>> {
    match place_of(before.entries@, e.object@, e.offset) {
        Some(i) => before.entries@.remove(i),
        None => before.entries@,
    }
}

proof fn lemma_other_pages<V>(before: PageCache<V>, e: PageEntry<V>)
    requires
        before.wf(),
        e.last_used > before.tick,
    ensures
        distinct_times(other_pages(before, e).push(e)),
        forall|p: PageEntry<V>|
            (#[trigger] other_pages(before, e).push(e).contains(p)) <==> p == e || (
            before.entries@.contains(p) && !p.is_page(e.object@, e.offset)),
{
    let place = place_of(before.entries@, e.object@, e.offset);
    let others = other_pages(before, e);
    lemma_without(before.entries@, others, place, e.object@, e.offset);
    assert forall|k: int| 0 <= k < others.len() implies !(#[trigger] others[k]).is_page(
        e.object@,
        e.offset,
    ) && others[k].last_used <= before.tick by {
        let j = choose|j: int|
            0 <= j < before.entries@.len() && others[k] == #[trigger] before.entries@[j];
        assert(before.entries@[j].last_used <= before.tick);
    }
    lemma_with_new(others, e, before.tick);
    let all = others.push(e);
    assert forall|p: PageEntry<V>| (#[trigger] all.contains(p)) <==> p == e || (
    before.entries@.contains(p) && !p.is_page(e.object@, e.offset)) by {
        if all.contains(p) && p != e {
            let k = all.index_of(p);
            assert(others[k] == p);
            let j = choose|j: int|
                0 <= j < before.entries@.len() && others[k] == #[trigger] before.entries@[j];
            assert(before.entries@[j] == p);
        }
        if p == e {
            assert(all[others.len() as int] == p);
        }
        if before.entries@.contains(p) && !p.is_page(e.object@, e.offset) {
            let j = before.entries@.index_of(p);
            match place {
                Some(i) => {
                    assert(j != i);
                    if j < i {
                        assert(all[j] == p);
                    } else {
                        assert(all[j - 1] == p);
                    }
                },
                None => {
                    assert(all[j] == p);
                },
            }
        }
    }
}

/// After a page was put in all that is kept fits; it is there, and every other
/// page that is there was there before.
pub proof fn law_insertion_stays_within_budget<V>(before: PageCache<V>, e: PageEntry<V>)
    requires
        before.wf(),
        e.last_used > before.tick,
        e.bytes <= before.max_bytes,
    ensures
        total(kept_with(before, e)) <= before.max_bytes,
        kept_with(before, e).contains(e),
        forall|p: PageEntry<V>| #[trigger]
            kept_with(before, e).contains(p) && p != e ==> before.entries@.contains(p)
                && !p.is_page(e.object@, e.offset),
{
    law_new_page_is_kept(before, e);
    lemma_other_pages(before, e);
    let all = other_pages(before, e).push(e);
    law_what_stays_fits(all, before.max_bytes as int);
    assert forall|p: PageEntry<V>| #[trigger] kept_with(before, e).contains(p) && p
        != e implies before.entries@.contains(p) && !p.is_page(e.object@, e.offset) by {
        assert(all.contains(p));
    }
}

/// Another page that goes when a page is put in was used before every page that
/// stays, and the last of those that go had to: with it the rest would not fit.
pub proof fn law_insertion_evicts_the_oldest<V>(
    before: PageCache<V>,
    e: PageEntry<V>,
    gone: PageEntry<V>,
)
    requires
        before.wf(),
        e.last_used > before.tick,
        e.bytes <= before.max_bytes,
        before.entries@.contains(gone),
        !gone.is_page(e.object@, e.offset),
        !kept_with(before, e).contains(gone),
    ensures
        forall|k: PageEntry<V>| #[trigger]
            kept_with(before, e).contains(k) ==> gone.last_used < k.last_used,
        (forall|g: PageEntry<V>| #[trigger]
            before.entries@.contains(g) && !g.is_page(e.object@, e.offset) && !kept_with(
                before,
                e,
            ).contains(g) ==> g.last_used <= gone.last_used) ==> total(kept_with(before, e))
            + gone.bytes > before.max_bytes,
{
    lemma_other_pages(before, e);
    law_new_page_is_kept(before, e);
    let all = other_pages(before, e).push(e);
    let max = before.max_bytes as int;
    assert(all.contains(gone));
    assert forall|k: PageEntry<V>| #[trigger] kept_with(before, e).contains(
        k,
    ) implies gone.last_used < k.last_used by {
        law_least_recently_used_go(all, max, gone, k);
    }
    if forall|g: PageEntry<V>| #[trigger]
        before.entries@.contains(g) && !g.is_page(e.object@, e.offset) && !kept_with(
            before,
            e,
        ).contains(g) ==> g.last_used <= gone.last_used {
        assert forall|g: PageEntry<V>|
            #![trigger evicted(all, max).contains(g)]
            all.contains(g) && !evicted(all, max).contains(g) implies g.last_used
            <= gone.last_used by {
            assert(before.entries@.contains(g));
        }
        law_no_more_go_than_needed(all, max, gone);
    }
}

/// A page that fits is kept when it is put in.
pub proof fn law_new_page_is_kept<V>(before: PageCache<V>, e: PageEntry<V>)
    requires
        before.wf(),
        e.last_used > before.tick,
        e.bytes <= before.max_bytes,
    ensures
        kept_with(before, e).contains(e),
{
    let object = e.object@;
    let offset = e.offset;
    let others = match place_of(before.entries@, object, offset) {
        Some(i) => before.entries@.remove(i),
        None => before.entries@,
    };
    if let Some(i) = place_of(before.entries@, object, offset) {
        lemma_removed(before.entries@, i);
    }
    assert forall|k: int| 0 <= k < others.len() implies (#[trigger] others[k]).last_used
        < e.last_used by {
        match place_of(before.entries@, object, offset) {
            Some(i) => {
                let j = if k < i {
                    k
                } else {
                    k + 1
                };
                assert(before.entries@[j].last_used <= before.tick);
            },
            None => {
                assert(before.entries@[k].last_used <= before.tick);
            },
        }
    }
    let all = others.push(e);
    assert(distinct_times(all)) by {
        assert forall|a: int, b: int| 0 <= a < b < all.len() implies (
        #[trigger] all[a]).last_used != (#[trigger] all[b]).last_used by {
            if b < others.len() {
                assert(others[a].last_used != others[b].last_used);
            }
        }
    }
    law_last_used_stays(all, before.max_bytes as int, others.len() as int);
}

proof fn lemma_evicted_distinct<V>(entries: Seq<PageEntry<V>>, max: int)
    requires
        distinct_pages(entries),
        distinct_times(entries),
    ensures
        distinct_pages(evicted(entries, max)),
    decreases entries.len(),
{
    if entries.len() > 0 && total(entries) > max {
        let c = lemma_evicts_oldest(entries, max);
        lemma_removed(entries, c);
        lemma_evicted_distinct(entries.remove(c), max);
    }
}

/// A page that was put in is the one that is found at its place.
pub proof fn law_new_page_is_found<V>(before: PageCache<V>, e: PageEntry<V>)
    requires
        before.wf(),
        e.last_used > before.tick,
        e.bytes <= before.max_bytes,
    ensures
        place_of(kept_with(before, e), e.object@, e.offset) matches Some(i) && kept_with(
            before,
            e,
        )[i] == e,
{
    law_new_page_is_kept(before, e);
    let others = other_pages(before, e);
    let place = place_of(before.entries@, e.object@, e.offset);
    lemma_without(before.entries@, others, place, e.object@, e.offset);
    assert forall|k: int| 0 <= k < others.len() implies !(#[trigger] others[k]).is_page(
        e.object@,
        e.offset,
    ) && others[k].last_used <= before.tick by {
        let j = choose|j: int|
            0 <= j < before.entries@.len() && others[k] == #[trigger] before.entries@[j];
        assert(before.entries@[j].last_used <= before.tick);
    }
    lemma_with_new(others, e, before.tick);
    lemma_evicted_distinct(others.push(e), before.max_bytes as int);
    let kept = kept_with(before, e);
    let i = kept.index_of(e);
    lemma_place(kept, e.object@, e.offset, i);
}

proof fn lemma_oldest_exists<V>(entries: Seq<PageEntry<V>>)
    requires
        entries.len() > 0,
        distinct_times(entries),
    ensures
        exists|i: int| is_oldest(entries, i),
    decreases entries.len(),
{
    if entries.len() == 1 {
        assert(is_oldest(entries, 0));
    } else {
        let front = entries.drop_last();
        assert(distinct_times(front)) by {
            assert forall|a: int, b: int| 0 <= a < b < front.len() implies (
            #[trigger] front[a]).last_used != (#[trigger] front[b]).last_used by {
                assert(entries[a].last_used != entries[b].last_used);
            }
        }
        lemma_oldest_exists(front);
        let c = choose|c: int| is_oldest(front, c);
        let n = entries.len() - 1;
        assert(entries[c].last_used != entries[n].last_used);
        if entries[c].last_used < entries[n].last_used {
            assert forall|k: int| 0 <= k < entries.len() && k != c implies entries[c].last_used < (
            #[trigger] entries[k]).last_used by {
                if k < n {
                    assert(front[k] == entries[k]);
                }
            }
            assert(is_oldest(entries, c));
        } else {
            assert forall|k: int| 0 <= k < entries.len() && k != n implies entries[n].last_used < (
            #[trigger] entries[k]).last_used by {
                assert(front[k] == entries[k]);
                if k != c {
                    assert(front[c].last_used < front[k].last_used);
                }
            }
            assert(is_oldest(entries, n));
        }
    }
}

} // verus!
