//! Which events a compaction keeps, and into which block each goes.

use super::merge::{is_merge, law_merge_ignores_the_order_of_inputs, merged, same_blocks};
use super::{CompactionOutputPlan, PlanView};
use crate::calendar::{civil, day_of, monday, packed_date, week_bucket_yyyymmdd};
use crate::error::{EngineError, ErrorView, IndexError, IndexErrorView};
use crate::event::{events_wf, Event, EventView, Op};
use crate::flush::SortOrder;
use crate::fold::{
    lemma_try_fold_all, lemma_try_fold_fails, lemma_try_fold_step, try_fold,
};
use crate::sorted::{
    distinct_keys, lemma_map_keys_sorted, lemma_sorted_domain, lemma_sorted_exists, listed,
    sorted_seq, OrderedKey, SortedMap,
};
use crate::stable::{
    law_sorting_keeps_every_entry, lemma_stable_sorted, stable_sort, stable_sorted,
};
use crate::text::views;
use crate::trie::{in_part, part_contains, Recency, TrieKey, TrieKeyView};
use crate::types::{clone_bytes, Iid, Instant};
use vstd::prelude::*;

verus! {

/// The place behind the last erasure: what stands before is gone.
pub open spec fn erased_upto(events: Seq<EventView>) -> int
    decreases events.len(),
{
    if events.len() == 0 {
        0
    } else if events.last().op is Erase {
        events.len() as int
    } else {
        erased_upto(events.drop_last())
    }
}

/// The events that may be kept, by their places, from the newest on: those
/// behind the last erasure that hold for some time.
pub open spec fn candidates_from(events: Seq<EventView>, lo: int, hi: int) -> Seq<int>
    decreases hi - lo,
{
    if hi <= lo {
        Seq::empty()
    } else if events[hi - 1].valid_from.us < events[hi - 1].valid_to.us {
        seq![hi - 1] + candidates_from(events, lo, hi - 1)
    } else {
        candidates_from(events, lo, hi - 1)
    }
}

pub open spec fn candidates_spec(events: Seq<EventView>) -> Seq<int> {
    candidates_from(events, erased_upto(events), events.len() as int)
}

proof fn lemma_erased_bound(events: Seq<EventView>)
    ensures
        0 <= erased_upto(events) <= events.len(),
        forall|i: int|
            erased_upto(events) <= i < events.len() ==> !((#[trigger] events[i]).op is Erase),
    decreases events.len(),
{
    if events.len() > 0 {
        let front = events.drop_last();
        lemma_erased_bound(front);
        if !(events.last().op is Erase) {
            assert forall|i: int| erased_upto(events) <= i < events.len() implies !((
            #[trigger] events[i]).op is Erase) by {
                if i < front.len() {
                    assert(front[i] == events[i]);
                }
            }
        }
    }
}

fn is_erase(event: &Event) -> (r: bool)
    ensures
        r == (event@.op is Erase),
{
    match &event.op {
        Op::Erase => true,
        _ => false,
    }
}

/// The events that may be kept, from the newest on.
pub fn candidates(events: &Vec<Event>) -> (r: Vec<usize>)
    ensures
        r@.map_values(|i: usize| i as int) == candidates_spec(views(events@)),
        forall|i: int|
            #![trigger events@[i]]
            0 <= i < events@.len() ==> (r@.contains(i as usize) <==> events@[i].valid_from.us
                < events@[i].valid_to.us && (forall|j: int|
                i <= j < events@.len() ==> !((#[trigger] events@[j])@.op is Erase))),
        forall|a: int, b: int| 0 <= a < b < r@.len() ==> r@[a] > r@[b],
        forall|a: int| 0 <= a < r@.len() ==> (#[trigger] r@[a]) < events@.len(),
{
    let ghost all = views(events@);
    let n: usize = events.len();
    let mut lo: usize = n;
    let mut open = true;
    assert(all.subrange(0, n as int) =~= all);
    while lo > 0 && open
        invariant
            lo <= n,
            n == all.len(),
            all == views(events@),
            n == events.len(),
            open ==> erased_upto(all) == erased_upto(all.subrange(0, lo as int)),
            !open ==> erased_upto(all) == lo,
        decreases
            lo + if open {
                1int
            } else {
                0
            },
    {
        proof {
            let part = all.subrange(0, lo as int);
            assert(part.last() == events@[lo - 1]@);
            assert(part.drop_last() =~= all.subrange(0, lo - 1));
        }
        if is_erase(&events[lo - 1]) {
            open = false;
        } else {
            lo = lo - 1;
        }
    }
    proof {
        if open {
            assert(all.subrange(0, 0).len() == 0);
            assert(lo == 0);
        }
        assert(erased_upto(all) == lo);
    }
    let mut r: Vec<usize> = Vec::new();
    let mut hi: usize = n;
    assert(r@.map_values(|i: usize| i as int) + candidates_from(all, lo as int, n as int)
        =~= candidates_from(all, lo as int, n as int));
    while hi > lo
        invariant
            lo <= hi <= n,
            n == all.len(),
            n == events.len(),
            all == views(events@),
            r@.map_values(|i: usize| i as int) + candidates_from(all, lo as int, hi as int)
                == candidates_from(all, lo as int, n as int),
        decreases hi,
    {
        let event = &events[hi - 1];
        let ghost before = r@.map_values(|i: usize| i as int);
        let ghost rest = candidates_from(all, lo as int, hi - 1);
        assert(all[hi - 1] == event@);
        if event.valid_from.us < event.valid_to.us {
            r.push(hi - 1);
            assert(r@.map_values(|i: usize| i as int) =~= before.push(hi - 1));
            assert(before.push(hi - 1) + rest =~= before + (seq![hi - 1] + rest));
        }
        hi = hi - 1;
    }
    assert(r@.map_values(|i: usize| i as int) + Seq::<int>::empty() =~= r@.map_values(
        |i: usize| i as int,
    ));
    proof {
        lemma_candidates_of(events@, r@);
    }
    r
}

proof fn lemma_candidates_of(events: Seq<Event>, r: Seq<usize>)
    requires
        events.len() <= usize::MAX,
        r.map_values(|i: usize| i as int) == candidates_spec(views(events)),
    ensures
        forall|i: int|
            #![trigger events[i]]
            0 <= i < events.len() ==> (r.contains(i as usize) <==> events[i].valid_from.us
                < events[i].valid_to.us && (forall|j: int|
                i <= j < events.len() ==> !((#[trigger] events[j])@.op is Erase))),
        forall|a: int, b: int| 0 <= a < b < r.len() ==> r[a] > r[b],
        forall|a: int| 0 <= a < r.len() ==> (#[trigger] r[a]) < events.len(),
{
    let all = views(events);
    let places = r.map_values(|i: usize| i as int);
    law_candidates_are_complete(all);
    assert forall|i: int|
        #![trigger events[i]]
        0 <= i < events.len() implies (r.contains(i as usize) <==> events[i].valid_from.us
        < events[i].valid_to.us && (forall|j: int|
        i <= j < events.len() ==> !((#[trigger] events[j])@.op is Erase))) by {
        assert(all[i] == events[i]@);
        assert(places.contains(i) <==> r.contains(i as usize)) by {
            if places.contains(i) {
                assert(r[places.index_of(i)] == i as usize);
            }
            if r.contains(i as usize) {
                assert(places[r.index_of(i as usize)] == i);
            }
        }
        if forall|j: int| i <= j < events.len() ==> !((#[trigger] events[j])@.op is Erase) {
            assert forall|j: int| i <= j < all.len() implies !((#[trigger] all[j]).op is Erase) by {
                assert(all[j] == events[j]@);
            }
        }
        if forall|j: int| i <= j < all.len() ==> !((#[trigger] all[j]).op is Erase) {
            assert forall|j: int| i <= j < events.len() implies !((
            #[trigger] events[j])@.op is Erase) by {
                assert(all[j] == events[j]@);
            }
        }
    }
    assert forall|a: int, b: int| 0 <= a < b < r.len() implies r[a] > r[b] by {
        assert(places[a] > places[b]);
    }
    assert forall|a: int| 0 <= a < r.len() implies (#[trigger] r[a]) < events.len() by {
        assert(places[a] == r[a]);
        assert(places.contains(places[a]));
    }
}

/// What the index says of a candidate, given the newer ones: in how many ranges
/// of time it is not superseded, and until when it may be seen.
#[derive(Clone, Copy, Debug, PartialEq, Eq, Structural)]
pub struct Verdict {
    pub ranges: usize,
    pub recency: Instant,
}

/// The week of a verdict can be named.
pub open spec fn nameable(t: Instant) -> bool {
    t == Instant::end_of_time() || civil(monday(day_of(t))).year >= 0
}

pub open spec fn recency_spec(t: Instant) -> Recency {
    if t == Instant::end_of_time() {
        Recency::Current
    } else {
        Recency::Week { yyyymmdd: packed_date(civil(monday(day_of(t)))) as u32 }
    }
}

/// How recent an event is that may be seen until an instant.
pub fn recency_for(t: Instant) -> (r: Recency)
    requires
        nameable(t),
    ensures
        r == recency_spec(t),
{
    if t.us == i64::MAX {
        Recency::Current
    } else {
        Recency::Week { yyyymmdd: week_bucket_yyyymmdd(t) }
    }
}

/// The candidates that are kept, among the first `n`.
pub open spec fn kept_upto(places: Seq<int>, verdicts: Seq<Verdict>, n: int) -> Seq<(int, Recency)>
    decreases n,
{
    if n <= 0 {
        Seq::empty()
    } else if verdicts[n - 1].ranges == 0 {
        kept_upto(places, verdicts, n - 1)
    } else {
        kept_upto(places, verdicts, n - 1).push(
            (places[n - 1], recency_spec(verdicts[n - 1].recency)),
        )
    }
}

/// The events that are kept, by their places, from the oldest on.
pub open spec fn retained_spec(events: Seq<EventView>, verdicts: Seq<Verdict>) -> Seq<
    (int, Recency),
> {
    kept_upto(candidates_spec(events), verdicts, verdicts.len() as int).reverse()
}

/// One verdict for each candidate, of a week that can be named.
pub open spec fn verdicts_ok(events: Seq<EventView>, verdicts: Seq<Verdict>) -> bool {
    &&& verdicts.len() == candidates_spec(events).len()
    &&& forall|i: int|
        0 <= i < verdicts.len() && (#[trigger] verdicts[i]).ranges > 0 ==> nameable(
            verdicts[i].recency,
        )
}

/// The events that are kept, from the oldest on.
pub fn retained_events_with_recency(events: &Vec<Event>, verdicts: &Vec<Verdict>) -> (r: Vec<
    (usize, Recency),
>)
    requires
        verdicts_ok(views(events@), verdicts@),
    ensures
        r@.map_values(|p: (usize, Recency)| (p.0 as int, p.1)) == retained_spec(
            views(events@),
            verdicts@,
        ),
{
    let ghost all = views(events@);
    let places = candidates(events);
    let ghost spots = candidates_spec(all);
    let ghost total = verdicts@.len() as int;
    let ghost whole = kept_upto(spots, verdicts@, total);
    let n: usize = verdicts.len();
    let mut kept: Vec<(usize, Recency)> = Vec::new();
    let mut i: usize = 0;
    while i < n
        invariant
            i <= n,
            n == verdicts@.len() == places@.len(),
            places@.map_values(|i: usize| i as int) == spots,
            verdicts_ok(all, verdicts@),
            kept@.map_values(|p: (usize, Recency)| (p.0 as int, p.1)) == kept_upto(
                spots,
                verdicts@,
                i as int,
            ),
        decreases n - i,
    {
        let v = verdicts[i];
        let ghost before = kept@;
        if v.ranges > 0 {
            assert(spots[i as int] == places@[i as int] as int);
            kept.push((places[i], recency_for(v.recency)));
            assert(kept@.map_values(|p: (usize, Recency)| (p.0 as int, p.1)) =~= before.map_values(
                |p: (usize, Recency)| (p.0 as int, p.1),
            ).push((spots[i as int], recency_spec(v.recency))));
        }
        i += 1;
    }
    let m: usize = kept.len();
    let mut r: Vec<(usize, Recency)> = Vec::new();
    let mut k: usize = m;
    while k > 0
        invariant
            k <= m,
            m == kept@.len(),
            r@.len() == m - k,
            forall|j: int| 0 <= j < r@.len() ==> #[trigger] r@[j] == kept@[m - 1 - j],
        decreases k,
    {
        k = k - 1;
        r.push(kept[k]);
    }
    assert(r@.map_values(|p: (usize, Recency)| (p.0 as int, p.1)) =~= whole.reverse());
    r
}

/// By what an event is sorted in a block.
pub open spec fn sort_key_spec(e: EventView, order: SortOrder) -> Iid {
    match order {
        SortOrder::ByIid => e.iid,
        SortOrder::BySrc => match e.src {
            Some(src) => src,
            None => e.iid,
        },
        SortOrder::ByDst => match e.dst {
            Some(dst) => dst,
            None => e.iid,
        },
    }
}

pub fn sort_key(e: &Event, order: SortOrder) -> (r: Iid)
    ensures
        r == sort_key_spec(e@, order),
{
    match order {
        SortOrder::ByIid => e.iid,
        SortOrder::BySrc => match e.src {
            Some(src) => src,
            None => e.iid,
        },
        SortOrder::ByDst => match e.dst {
            Some(dst) => dst,
            None => e.iid,
        },
    }
}

/// A block may take the event.
pub open spec fn takes(key: TrieKeyView, e: EventView, order: SortOrder, recency: Recency) -> bool {
    key.recency == recency && part_contains(key.part, sort_key_spec(e, order))
}

/// The first of the blocks that may take the event.
pub open spec fn first_taking(
    keys: Seq<TrieKeyView>,
    e: EventView,
    order: SortOrder,
    recency: Recency,
) -> Option<TrieKeyView>
    decreases keys.len(),
{
    if keys.len() == 0 {
        None
    } else if takes(keys[0], e, order, recency) {
        Some(keys[0])
    } else {
        first_taking(keys.drop_first(), e, order, recency)
    }
}

/// The block that an event goes to.
pub open spec fn output_key_spec(
    plan: PlanView,
    e: EventView,
    order: SortOrder,
    recency: Recency,
) -> Option<TrieKeyView> {
    match plan {
        PlanView::Exact(keys) => first_taking(keys, e, order, recency),
        PlanView::L0RecencySplit { level, part, block } => Some(
            TrieKeyView { level, recency, part, block },
        ),
    }
}

impl CompactionOutputPlan {
    /// The block that an event goes to.
    pub fn output_key_for_event(&self, event: &Event, order: SortOrder, recency: Recency) -> (r:
        Option<TrieKey>)
        ensures
            match r {
                Some(k) => output_key_spec(self@, event@, order, recency) == Some(k@),
                None => output_key_spec(self@, event@, order, recency) is None,
            },
    {
        match self {
            CompactionOutputPlan::Exact(keys) => {
                let ghost all = views(keys@);
                let key = sort_key(event, order);
                let mut i: usize = 0;
                assert(all.subrange(0, all.len() as int) =~= all);
                while i < keys.len()
                    invariant
                        i <= keys.len(),
                        all == views(keys@),
                        self@ == PlanView::Exact(all),
                        key == sort_key_spec(event@, order),
                        first_taking(all, event@, order, recency) == first_taking(
                            all.subrange(i as int, all.len() as int),
                            event@,
                            order,
                            recency,
                        ),
                    decreases keys.len() - i,
                {
                    proof {
                        let rest = all.subrange(i as int, all.len() as int);
                        assert(rest[0] == keys@[i as int]@);
                        assert(rest.drop_first() =~= all.subrange(i + 1, all.len() as int));
                    }
                    if keys[i].recency == recency && in_part(&keys[i].part, key) {
                        return Some(keys[i].clone_key());
                    }
                    i += 1;
                }
                None
            },
            CompactionOutputPlan::L0RecencySplit { level, part, block } => Some(
                TrieKey { level: *level, recency, part: clone_bytes(part), block: *block },
            ),
        }
    }
}

/// An event and the block that it goes to.
pub type Routed = (EventView, TrieKeyView);

pub open spec fn no_block() -> ErrorView {
    ErrorView::Index(IndexErrorView::Other("compaction output trie key missing"@))
}

/// What is routed after one more event.
pub open spec fn route_step(
    plan: PlanView,
    order: SortOrder,
    events: Seq<EventView>,
    acc: Seq<Routed>,
    p: (int, Recency),
) -> Result<Seq<Routed>, ErrorView> {
    match output_key_spec(plan, events[p.0], order, p.1) {
        None => Err(no_block()),
        Some(k) => Ok(acc.push((events[p.0], k))),
    }
}

/// What is routed after one more entity.
pub open spec fn route_entity(
    plan: PlanView,
    order: SortOrder,
    events: Seq<EventView>,
    verdicts: Seq<Verdict>,
    acc: Seq<Routed>,
) -> Result<Seq<Routed>, ErrorView> {
    try_fold(
        retained_spec(events, verdicts),
        acc,
        |acc: Seq<Routed>, p: (int, Recency)| route_step(plan, order, events, acc, p),
    )
}

/// Where every event that is kept goes, entity by entity.
pub open spec fn route_all(
    plan: PlanView,
    order: SortOrder,
    by_iid: Map<Iid, Vec<Event>>,
    verdicts: Map<Iid, Vec<Verdict>>,
) -> Result<Seq<Routed>, ErrorView> {
    try_fold(
        sorted_seq::<Iid>(by_iid.dom()),
        Seq::<Routed>::empty(),
        |acc: Seq<Routed>, iid: Iid|
            route_entity(plan, order, views(by_iid[iid]@), verdicts[iid]@, acc),
    )
}

/// The events of a block, in the order in which they were routed.
pub open spec fn rows_for(acc: Seq<Routed>, key: TrieKeyView) -> Seq<EventView> {
    acc.filter(|x: Routed| x.1 == key).map_values(|x: Routed| x.0)
}

/// An instant in the order from the newest on.
#[derive(Clone, Copy, Debug, PartialEq, Eq, Structural)]
pub struct NewestFirst {
    pub us: i64,
}

impl OrderedKey for NewestFirst {
    type Model = NewestFirst;

    open spec fn model(&self) -> NewestFirst {
        *self
    }

    open spec fn less(a: NewestFirst, b: NewestFirst) -> bool {
        a.us > b.us
    }

    proof fn order_laws(a: NewestFirst, b: NewestFirst) {
    }

    proof fn transitive(a: NewestFirst, b: NewestFirst, c: NewestFirst) {
    }

    fn before(&self, other: &Self) -> (r: bool) {
        self.us > other.us
    }
}

/// The key by which the rows of a block are sorted.
pub type RowKey = (Iid, (Iid, NewestFirst));

pub open spec fn row_key(e: EventView, order: SortOrder) -> (Iid, (Iid, NewestFirst)) {
    (sort_key_spec(e, order), (e.iid, NewestFirst { us: e.system_from.us }))
}

/// The rows of a block, sorted.
pub open spec fn sorted_rows(rows: Seq<EventView>, order: SortOrder) -> Seq<EventView> {
    stable_sorted::<RowKey, EventView>(rows, rows.map_values(|e: EventView| row_key(e, order)))
}

fn sort_rows(rows: Vec<Event>, order: SortOrder) -> (r: Vec<Event>)
    requires
        events_wf(rows@),
    ensures
        events_wf(r@),
        views(r@) == sorted_rows(views(rows@), order),
{
    let mut keys: Vec<RowKey> = Vec::new();
    let total: usize = rows.len();
    let mut i: usize = 0;
    while i < rows.len()
        invariant
            i <= rows.len(),
            keys@.len() == i,
            forall|k: int| 0 <= k < i ==> #[trigger] keys@[k] == row_key(rows@[k]@, order),
        decreases rows.len() - i,
    {
        let e = &rows[i];
        keys.push((sort_key(e, order), (e.iid, NewestFirst { us: e.system_from.us })));
        i += 1;
    }
    let ghost given = rows@;
    let ghost ms = keys@.map_values(|k: RowKey| k.model());
    let ghost vs = views(rows@);
    proof {
        assert(ms =~= vs.map_values(|e: EventView| row_key(e, order)));
        let places = lemma_stable_sorted::<RowKey, Event>(given, ms);
        lemma_stable_views(given, ms);
    }
    let r = stable_sort(rows, keys);
    proof {
        let places = lemma_stable_sorted::<RowKey, Event>(given, ms);
        assert forall|k: int| 0 <= k < r@.len() implies (#[trigger] r@[k]).wf() by {
            assert(r@[k] == given[places[k] as int]);
        }
    }
    r
}

proof fn lemma_stable_views(items: Seq<Event>, keys: Seq<(Iid, (Iid, NewestFirst))>)
    requires
        items.len() == keys.len(),
        keys.len() <= usize::MAX,
    ensures
        views(stable_sorted::<RowKey, Event>(items, keys)) == stable_sorted::<RowKey, EventView>(
            views(items),
            keys,
        ),
{
    let a = stable_sorted::<RowKey, Event>(items, keys);
    let b = stable_sorted::<RowKey, EventView>(views(items), keys);
    let order = sorted_seq::<(RowKey, usize)>(crate::stable::marked::<RowKey>(keys));
    let places = lemma_stable_sorted::<RowKey, Event>(items, keys);
    let places2 = lemma_stable_sorted::<RowKey, EventView>(views(items), keys);
    lemma_marked_members(keys);
    assert forall|i: int| 0 <= i < a.len() implies #[trigger] views(a)[i] == b[i] by {
        assert(a[i] == items[order[i].1 as int]);
        assert(b[i] == views(items)[order[i].1 as int]);
    }
    assert(views(a) =~= b);
}

proof fn lemma_marked_members(keys: Seq<(Iid, (Iid, NewestFirst))>)
    requires
        keys.len() <= usize::MAX,
    ensures
        ({
            let order = sorted_seq::<(RowKey, usize)>(crate::stable::marked::<RowKey>(keys));
            forall|i: int| 0 <= i < order.len() ==> (#[trigger] order[i]).1 < keys.len()
        }),
{
    let set = crate::stable::marked::<RowKey>(keys);
    let all = Seq::new(keys.len(), |i: int| (keys[i], i as usize));
    assert(set =~= all.to_set()) by {
        assert forall|p: ((Iid, (Iid, NewestFirst)), usize)| #[trigger]
            set.contains(p) <==> all.to_set().contains(p) by {
            if set.contains(p) {
                assert(all[p.1 as int] == p);
            }
        }
    }
    vstd::seq_lib::seq_to_set_is_finite::<((Iid, (Iid, NewestFirst)), usize)>(all);
    crate::sorted::lemma_sorted_exists::<(RowKey, usize)>(set);
    let order = sorted_seq::<(RowKey, usize)>(set);
    assert forall|i: int| 0 <= i < order.len() implies (#[trigger] order[i]).1 < keys.len() by {
        assert(order.to_set().contains(order[i]));
    }
}

/// The blocks hold what was routed to them.
pub open spec fn is_routing(groups: Map<TrieKeyView, Vec<Event>>, acc: Seq<Routed>) -> bool {
    &&& forall|k: TrieKeyView| #[trigger]
        groups.dom().contains(k) <==> rows_for(acc, k).len() > 0
    &&& forall|k: TrieKeyView| #[trigger]
        groups.dom().contains(k) ==> events_wf(groups[k]@) && views(groups[k]@) == rows_for(
            acc,
            k,
        )
}

proof fn lemma_rows_push(acc: Seq<Routed>, x: Routed, key: TrieKeyView)
    ensures
        rows_for(acc.push(x), key) == (if x.1 == key {
            rows_for(acc, key).push(x.0)
        } else {
            rows_for(acc, key)
        }),
{
    reveal(Seq::filter);
    assert(acc.push(x).drop_last() =~= acc);
    let pred = |x: Routed| x.1 == key;
    let proj = |x: Routed| x.0;
    if x.1 == key {
        assert(acc.push(x).filter(pred) == acc.filter(pred).push(x));
        assert(acc.filter(pred).push(x).map_values(proj) =~= acc.filter(pred).map_values(
            proj,
        ).push(x.0));
    }
}

fn route_one(
    groups: &mut SortedMap<TrieKey, Vec<Event>>,
    key: TrieKey,
    event: &Event,
    Ghost(acc): Ghost<Seq<Routed>>,
)
    requires
        old(groups).wf(),
        event.wf(),
        is_routing(old(groups)@, acc),
    ensures
        final(groups).wf(),
        is_routing(final(groups)@, acc.push((event@, key@))),
{
    let ghost before = groups@;
    let ghost x = (event@, key@);
    proof {
        assert forall|k: TrieKeyView| #[trigger] rows_for(acc.push(x), k) == (if x.1 == k {
            rows_for(acc, k).push(x.0)
        } else {
            rows_for(acc, k)
        }) by {
            lemma_rows_push(acc, x, k);
        }
    }
    let mut list = match groups.remove(&key) {
        Some(list) => list,
        None => Vec::new(),
    };
    let ghost list0 = list@;
    proof {
        if !before.dom().contains(key@) {
            assert(rows_for(acc, key@) =~= Seq::<EventView>::empty());
            assert(views(list0) =~= Seq::<EventView>::empty());
        }
        assert(views(list0) == rows_for(acc, key@));
    }
    list.push(event.clone_event());
    assert(views(list@) =~= views(list0).push(event@));
    let ghost list1 = list;
    let ghost kv = key@;
    groups.insert(key, list);
    proof {
        assert(groups@ =~= before.insert(kv, list1));
        assert forall|k: TrieKeyView| #[trigger] groups@.dom().contains(k) <==> rows_for(
            acc.push(x),
            k,
        ).len() > 0 by {
            assert(rows_for(acc.push(x), k) == (if x.1 == k {
                rows_for(acc, k).push(x.0)
            } else {
                rows_for(acc, k)
            }));
        }
        assert forall|k: TrieKeyView| #[trigger] groups@.dom().contains(k) implies events_wf(
            groups@[k]@,
        ) && views(groups@[k]@) == rows_for(acc.push(x), k) by {
            if k != kv {
                assert(before.dom().contains(k));
            }
        }
    }
}

fn route_events(
    plan: &CompactionOutputPlan,
    order: SortOrder,
    events: &Vec<Event>,
    verdicts: &Vec<Verdict>,
    groups: &mut SortedMap<TrieKey, Vec<Event>>,
    Ghost(acc): Ghost<Seq<Routed>>,
) -> (r: Result<Ghost<Seq<Routed>>, EngineError>)
    requires
        old(groups).wf(),
        events_wf(events@),
        verdicts_ok(views(events@), verdicts@),
        is_routing(old(groups)@, acc),
    ensures
        final(groups).wf(),
        match r {
            Ok(next) => route_entity(plan@, order, views(events@), verdicts@, acc) == Ok::<
                Seq<Routed>,
                ErrorView,
            >(next@) && is_routing(final(groups)@, next@),
            Err(e) => route_entity(plan@, order, views(events@), verdicts@, acc) == Err::<
                Seq<Routed>,
                ErrorView,
            >(e@),
        },
{
    let ghost all = views(events@);
    let kept = retained_events_with_recency(events, verdicts);
    let ghost places = retained_spec(all, verdicts@);
    let ghost step = |acc: Seq<Routed>, p: (int, Recency)| route_step(plan@, order, all, acc, p);
    let ghost mut now = acc;
    let n: usize = kept.len();
    let mut i: usize = 0;
    proof {
        lemma_try_fold_all(places, acc, step);
    }
    while i < n
        invariant
            i <= n,
            n == kept@.len() == places.len(),
            kept@.map_values(|p: (usize, Recency)| (p.0 as int, p.1)) == places,
            all == views(events@),
            events_wf(events@),
            places == retained_spec(all, verdicts@),
            verdicts_ok(all, verdicts@),
            groups.wf(),
            is_routing(groups@, now),
            step == (|acc: Seq<Routed>, p: (int, Recency)| route_step(plan@, order, all, acc, p)),
            try_fold(places.subrange(0, i as int), acc, step) == Ok::<Seq<Routed>, ErrorView>(now),
        decreases n - i,
    {
        let (at, recency) = kept[i];
        proof {
            assert(places[i as int] == (at as int, recency));
            lemma_retained_places(all, verdicts@, i as int);
            lemma_try_fold_step(places, acc, step, i as int);
            if try_fold(places.subrange(0, i + 1), acc, step) is Err {
                lemma_try_fold_fails(places, acc, step, i + 1);
            }
            assert(all[at as int] == events@[at as int]@);
        }
        let event = &events[at];
        match plan.output_key_for_event(event, order, recency) {
            None => {
                return Err(
                    EngineError::Index(
                        IndexError::Other("compaction output trie key missing".to_owned()),
                    ),
                );
            },
            Some(key) => {
                let ghost kv = key@;
                route_one(groups, key, event, Ghost(now));
                proof {
                    now = now.push((event@, kv));
                }
            },
        }
        i += 1;
    }
    proof {
        lemma_try_fold_all(places, acc, step);
    }
    Ok(Ghost(now))
}

proof fn lemma_candidates(events: Seq<EventView>, lo: int, hi: int, k: int)
    requires
        0 <= lo,
        hi <= events.len(),
        0 <= k < candidates_from(events, lo, hi).len(),
    ensures
        lo <= candidates_from(events, lo, hi)[k] < hi,
        events[candidates_from(events, lo, hi)[k]].valid_from.us < events[candidates_from(
            events,
            lo,
            hi,
        )[k]].valid_to.us,
    decreases hi - lo,
{
    if hi > lo {
        let rest = candidates_from(events, lo, hi - 1);
        if events[hi - 1].valid_from.us < events[hi - 1].valid_to.us {
            if k > 0 {
                lemma_candidates(events, lo, hi - 1, k - 1);
                assert((seq![hi - 1] + rest)[k] == rest[k - 1]);
            }
        } else {
            lemma_candidates(events, lo, hi - 1, k);
        }
    }
}

proof fn lemma_kept(places: Seq<int>, verdicts: Seq<Verdict>, n: int, k: int)
    requires
        0 <= n <= places.len(),
        0 <= k < kept_upto(places, verdicts, n).len(),
    ensures
        places.contains(kept_upto(places, verdicts, n)[k].0),
    decreases n,
{
    if n > 0 {
        let before = kept_upto(places, verdicts, n - 1);
        if k < before.len() {
            lemma_kept(places, verdicts, n - 1, k);
        } else {
            assert(places[n - 1] == kept_upto(places, verdicts, n)[k].0);
        }
    }
}

proof fn lemma_retained_places(events: Seq<EventView>, verdicts: Seq<Verdict>, k: int)
    requires
        verdicts_ok(events, verdicts),
        0 <= k < retained_spec(events, verdicts).len(),
    ensures
        erased_upto(events) <= retained_spec(events, verdicts)[k].0 < events.len(),
        0 <= retained_spec(events, verdicts)[k].0,
        events[retained_spec(events, verdicts)[k].0].valid_from.us < events[retained_spec(
            events,
            verdicts,
        )[k].0].valid_to.us,
{
    let places = candidates_spec(events);
    let kept = kept_upto(places, verdicts, verdicts.len() as int);
    let j = kept.len() - 1 - k;
    lemma_kept(places, verdicts, verdicts.len() as int, j);
    let c = places.index_of(kept[j].0);
    lemma_erased_bound(events);
    lemma_candidates(events, erased_upto(events), events.len() as int, c);
}

/// Routes every event that is kept to its block and sorts each block's rows.
pub fn route_blocks(
    plan: &CompactionOutputPlan,
    order: SortOrder,
    by_iid: &SortedMap<Iid, Vec<Event>>,
    verdicts: &SortedMap<Iid, Vec<Verdict>>,
) -> (r: Result<SortedMap<TrieKey, Vec<Event>>, EngineError>)
    requires
        by_iid.wf(),
        verdicts.wf(),
        forall|i: Iid| #[trigger]
            by_iid@.dom().contains(i) ==> events_wf(by_iid@[i]@) && verdicts@.dom().contains(i)
                && verdicts_ok(views(by_iid@[i]@), verdicts@[i]@),
    ensures
        match r {
            Err(e) => route_all(plan@, order, by_iid@, verdicts@) == Err::<Seq<Routed>, ErrorView>(
                e@,
            ),
            Ok(blocks) => {
                &&& blocks.wf()
                &&& (route_all(plan@, order, by_iid@, verdicts@) matches Ok(acc) && forall|
                    k: TrieKeyView,
                |
                    #![trigger blocks@.dom().contains(k)]
                    (blocks@.dom().contains(k) <==> rows_for(acc, k).len() > 0) && (
                    blocks@.dom().contains(k) ==> views(blocks@[k]@) == sorted_rows(
                        rows_for(acc, k),
                        order,
                    )))
            },
        },
{
    let n = by_iid.len();
    let ghost iids = by_iid.keys();
    let ghost none = Seq::<Routed>::empty();
    let ghost em = by_iid@;
    let ghost vm = verdicts@;
    let ghost step = |acc: Seq<Routed>, iid: Iid|
        route_entity(plan@, order, views(em[iid]@), vm[iid]@, acc);
    let ghost mut acc = none;
    let mut groups: SortedMap<TrieKey, Vec<Event>> = SortedMap::new();
    let mut i: usize = 0;
    proof {
        lemma_sorted_domain(*by_iid);
        lemma_map_keys_sorted(*by_iid);
        lemma_try_fold_all(iids, none, step);
        reveal(Seq::filter);
        assert forall|k: TrieKeyView| #[trigger] rows_for(none, k).len() == 0 by {}
    }
    while i < n
        invariant
            i <= n,
            n == iids.len(),
            iids == by_iid.keys(),
            iids == sorted_seq::<Iid>(em.dom()),
            em == by_iid@,
            vm == verdicts@,
            verdicts.wf(),
            none == Seq::<Routed>::empty(),
            forall|k: int|
                0 <= k < iids.len() ==> em.dom().contains(#[trigger] iids[k]) && em[iids[k]]
                    == by_iid.values()[k],
            forall|x: Iid| #[trigger]
                em.dom().contains(x) ==> events_wf(em[x]@) && vm.dom().contains(x) && verdicts_ok(
                    views(em[x]@),
                    vm[x]@,
                ),
            groups.wf(),
            is_routing(groups@, acc),
            step == (|acc: Seq<Routed>, iid: Iid|
                route_entity(plan@, order, views(em[iid]@), vm[iid]@, acc)),
            try_fold(iids.subrange(0, i as int), none, step) == Ok::<Seq<Routed>, ErrorView>(acc),
        decreases n - i,
    {
        let iid = *by_iid.key_at(i);
        let events = by_iid.value_at(i);
        proof {
            assert(em.dom().contains(iids[i as int]));
            lemma_try_fold_step(iids, none, step, i as int);
            if try_fold(iids.subrange(0, i + 1), none, step) is Err {
                lemma_try_fold_fails(iids, none, step, i + 1);
            }
        }
        match verdicts.get(&iid) {
            Some(list) => match route_events(plan, order, events, list, &mut groups, Ghost(acc)) {
                Ok(next) => {
                    proof {
                        acc = next@;
                    }
                },
                Err(e) => {
                    return Err(e);
                },
            },
            None => {
                assert(false);
            },
        }
        i += 1;
    }
    proof {
        lemma_try_fold_all(iids, none, step);
    }
    Ok(sort_blocks(groups, order, Ghost(acc)))
}

fn sort_blocks(groups: SortedMap<TrieKey, Vec<Event>>, order: SortOrder, Ghost(acc): Ghost<
    Seq<Routed>,
>) -> (r: SortedMap<TrieKey, Vec<Event>>)
    requires
        groups.wf(),
        is_routing(groups@, acc),
    ensures
        r.wf(),
        forall|k: TrieKeyView|
            #![trigger r@.dom().contains(k)]
            (r@.dom().contains(k) <==> rows_for(acc, k).len() > 0) && (r@.dom().contains(k)
                ==> views(r@[k]@) == sorted_rows(rows_for(acc, k), order)),
{
    let mut left = groups;
    let ghost keys = left.keys();
    let ghost start = left@;
    let n = left.len();
    let mut r: SortedMap<TrieKey, Vec<Event>> = SortedMap::new();
    let mut i: usize = 0;
    proof {
        lemma_sorted_domain(left);
    }
    let mut names: Vec<TrieKey> = Vec::new();
    while i < n
        invariant
            i <= n,
            n == keys.len(),
            keys == left.keys(),
            names@.len() == i,
            forall|k: int| 0 <= k < i ==> (#[trigger] names@[k])@ == keys[k],
        decreases n - i,
    {
        names.push(left.key_at(i).clone_key());
        i += 1;
    }
    proof {
        if keys.len() > 0 {
            crate::sorted::lemma_ascending_index::<TrieKey>(keys, 0);
        }
    }
    let mut j: usize = 0;
    while j < n
        invariant
            j <= n,
            n == keys.len() == names@.len(),
            keys.no_duplicates(),
            start.dom() == keys.to_set(),
            is_routing(start, acc),
            forall|k: int| 0 <= k < n ==> (#[trigger] names@[k])@ == keys[k],
            left.wf(),
            r.wf(),
            forall|k: TrieKeyView| #[trigger]
                left@.dom().contains(k) <==> start.dom().contains(k) && !keys.subrange(
                    0,
                    j as int,
                ).contains(k),
            forall|k: TrieKeyView| #[trigger]
                left@.dom().contains(k) ==> left@[k] == start[k],
            forall|k: TrieKeyView| #[trigger]
                r@.dom().contains(k) <==> keys.subrange(0, j as int).contains(k),
            forall|k: TrieKeyView| #[trigger]
                r@.dom().contains(k) ==> views(r@[k]@) == sorted_rows(rows_for(acc, k), order),
        decreases n - j,
    {
        let name = names[j].clone_key();
        let ghost kv = keys[j as int];
        let ghost a = keys.subrange(0, j as int);
        let ghost b = keys.subrange(0, j + 1);
        let ghost before = r@;
        let ghost left0 = left@;
        proof {
            assert(names@[j as int]@ == keys[j as int]);
            assert(b =~= a.push(kv));
            assert forall|x: TrieKeyView| #[trigger] b.contains(x) <==> a.contains(x) || x == kv by {
                if a.contains(x) {
                    let k = a.index_of(x);
                    assert(b[k] == x);
                }
                assert(b[j as int] == kv);
                if b.contains(x) {
                    let k = b.index_of(x);
                    if k < j {
                        assert(a[k] == x);
                    }
                }
            }
            assert(keys.to_set().contains(kv));
            assert(!a.contains(kv)) by {
                if a.contains(kv) {
                    let k = a.index_of(kv);
                    assert(keys[k] == keys[j as int]);
                }
            }
            assert(left@.dom().contains(kv));
        }
        match left.remove(&name) {
            Some(rows) => {
                proof {
                    assert(rows == start[kv]);
                    assert(start.dom().contains(kv));
                }
                let sorted = sort_rows(rows, order);
                let ghost s = sorted;
                r.insert(name, sorted);
                assert(r@ =~= before.insert(kv, s));
                assert(left@ =~= left0.remove(kv));
            },
            None => {
                assert(false);
            },
        }
        j += 1;
    }
    proof {
        assert(keys.subrange(0, n as int) =~= keys);
        assert forall|k: TrieKeyView|
            #![trigger r@.dom().contains(k)]
            (r@.dom().contains(k) <==> rows_for(acc, k).len() > 0) && (r@.dom().contains(k)
                ==> views(r@[k]@) == sorted_rows(rows_for(acc, k), order)) by {
            assert(r@.dom().contains(k) <==> keys.contains(k));
            assert(keys.to_set().contains(k) <==> keys.contains(k));
            assert(start.dom().contains(k) <==> rows_for(acc, k).len() > 0);
        }
    }
    r
}

/// What is kept of an entity stands behind its last erasure: nothing erased
/// comes through a compaction, and no erasure either.
pub proof fn law_erased_events_are_dropped(
    events: Seq<EventView>,
    verdicts: Seq<Verdict>,
    k: int,
    i: int,
)
    requires
        verdicts_ok(events, verdicts),
        0 <= k < retained_spec(events, verdicts).len(),
        0 <= i < events.len(),
        events[i].op is Erase,
    ensures
        i < retained_spec(events, verdicts)[k].0,
{
    lemma_erased_bound(events);
    lemma_retained_places(events, verdicts, k);
}

/// The rows of a block are sorted by their key; those of one entity stand from
/// the newest to the oldest.
pub proof fn law_rows_are_sorted(rows: Seq<EventView>, order: SortOrder, i: int, j: int)
    requires
        rows.len() <= usize::MAX,
        0 <= i < j < sorted_rows(rows, order).len(),
    ensures
        ({
            let a = sorted_rows(rows, order)[i];
            let b = sorted_rows(rows, order)[j];
            &&& sort_key_spec(a, order).bits <= sort_key_spec(b, order).bits
            &&& (sort_key_spec(a, order) == sort_key_spec(b, order) ==> a.iid.bits <= b.iid.bits)
            &&& (sort_key_spec(a, order) == sort_key_spec(b, order) && a.iid == b.iid
                ==> a.system_from.us >= b.system_from.us)
        }),
{
    let keys = rows.map_values(|e: EventView| row_key(e, order));
    let places = lemma_stable_sorted::<RowKey, EventView>(rows, keys);
    let p = places[i] as int;
    let q = places[j] as int;
    assert(keys[p] == row_key(rows[p], order));
    assert(keys[q] == row_key(rows[q], order));
    assert(<RowKey>::less(keys[p], keys[q]) || keys[p] == keys[q]);
}

proof fn lemma_route_same(
    plan: PlanView,
    order: SortOrder,
    iids: Seq<Iid>,
    m: Map<Iid, Vec<Event>>,
    v: Map<Iid, Vec<Verdict>>,
    n: Map<Iid, Vec<Event>>,
    w: Map<Iid, Vec<Verdict>>,
)
    requires
        forall|k: int|
            0 <= k < iids.len() ==> views(m[#[trigger] iids[k]]@) == views(n[iids[k]]@)
                && v[iids[k]]@ == w[iids[k]]@,
    ensures
        try_fold(
            iids,
            Seq::<Routed>::empty(),
            |acc: Seq<Routed>, iid: Iid|
                route_entity(plan, order, views(m[iid]@), v[iid]@, acc),
        ) == try_fold(
            iids,
            Seq::<Routed>::empty(),
            |acc: Seq<Routed>, iid: Iid|
                route_entity(plan, order, views(n[iid]@), w[iid]@, acc),
        ),
    decreases iids.len(),
{
    if iids.len() > 0 {
        let front = iids.drop_last();
        assert forall|k: int| 0 <= k < front.len() implies views(m[#[trigger] front[k]]@) == views(
            n[front[k]]@,
        ) && v[front[k]]@ == w[front[k]]@ by {
            assert(front[k] == iids[k]);
        }
        lemma_route_same(plan, order, front, m, v, n, w);
        assert(iids.last() == iids[iids.len() - 1]);
    }
}

/// The same blocks, read in any order, go through a compaction in the same way:
/// the same events go to the same blocks in the same order. What an entity's
/// events leave of each other must not depend on that order either.
pub proof fn law_output_ignores_the_order_of_inputs(
    a: Seq<(TrieKey, Vec<Event>)>,
    b: Seq<(TrieKey, Vec<Event>)>,
    plan: PlanView,
    order: SortOrder,
    m: Map<Iid, Vec<Event>>,
    v: Map<Iid, Vec<Verdict>>,
    n: Map<Iid, Vec<Event>>,
    w: Map<Iid, Vec<Verdict>>,
)
    requires
        distinct_keys(a),
        distinct_keys(b),
        same_blocks(a, b),
        m.dom().finite(),
        is_merge(m, |i: Iid| merged(listed(a), i)),
        is_merge(n, |i: Iid| merged(listed(b), i)),
        forall|i: Iid| #[trigger] m.dom().contains(i) ==> v[i]@ == w[i]@,
    ensures
        m.dom() == n.dom(),
        forall|i: Iid| #[trigger] m.dom().contains(i) ==> views(m[i]@) == views(n[i]@),
        route_all(plan, order, m, v) == route_all(plan, order, n, w),
{
    let f = |i: Iid| merged(listed(a), i);
    let g = |i: Iid| merged(listed(b), i);
    assert forall|i: Iid|
        #![trigger m.dom().contains(i)]
        (m.dom().contains(i) <==> n.dom().contains(i)) && (m.dom().contains(i) ==> views(m[i]@)
            == views(n[i]@)) by {
        law_merge_ignores_the_order_of_inputs(a, b, i);
        assert(f(i) == g(i));
        assert(m.dom().contains(i) <==> f(i).len() > 0);
        assert(n.dom().contains(i) <==> g(i).len() > 0);
    }
    assert(m.dom() =~= n.dom());
    let iids = sorted_seq::<Iid>(m.dom());
    lemma_sorted_exists::<Iid>(m.dom());
    assert forall|k: int| 0 <= k < iids.len() implies views(m[#[trigger] iids[k]]@) == views(
        n[iids[k]]@,
    ) && v[iids[k]]@ == w[iids[k]]@ by {
        assert(iids.to_set().contains(iids[k]));
        assert(m.dom().contains(iids[k]));
    }
    lemma_route_same(plan, order, iids, m, v, n, w);
}

proof fn lemma_erased_last(events: Seq<EventView>)
    ensures
        erased_upto(events) > 0 ==> events[erased_upto(events) - 1].op is Erase,
    decreases events.len(),
{
    if events.len() > 0 && !(events.last().op is Erase) {
        let front = events.drop_last();
        lemma_erased_last(front);
        lemma_erased_bound(front);
        if erased_upto(front) > 0 {
            assert(front[erased_upto(front) - 1] == events[erased_upto(front) - 1]);
        }
    }
}

proof fn lemma_candidates_listed(events: Seq<EventView>, lo: int, hi: int)
    requires
        0 <= lo,
        hi <= events.len(),
    ensures
        forall|i: int|
            candidates_from(events, lo, hi).contains(i) <==> lo <= i < hi
                && events[i].valid_from.us < events[i].valid_to.us,
        forall|a: int, b: int|
            0 <= a < b < candidates_from(events, lo, hi).len() ==> candidates_from(
                events,
                lo,
                hi,
            )[a] > candidates_from(events, lo, hi)[b],
    decreases hi - lo,
{
    let all = candidates_from(events, lo, hi);
    if hi > lo {
        lemma_candidates_listed(events, lo, hi - 1);
        let rest = candidates_from(events, lo, hi - 1);
        if events[hi - 1].valid_from.us < events[hi - 1].valid_to.us {
            assert(all == seq![hi - 1] + rest);
            assert(all[0] == hi - 1);
            assert forall|i: int| all.contains(i) <==> lo <= i < hi && events[i].valid_from.us
                < events[i].valid_to.us by {
                if rest.contains(i) {
                    let k = rest.index_of(i);
                    assert(all[k + 1] == i);
                }
                if all.contains(i) && i != hi - 1 {
                    let k = all.index_of(i);
                    assert(rest[k - 1] == i);
                }
            }
            assert forall|a: int, b: int| 0 <= a < b < all.len() implies all[a] > all[b] by {
                assert(all[b] == rest[b - 1]);
                assert(rest.contains(rest[b - 1]));
                if a > 0 {
                    assert(all[a] == rest[a - 1]);
                }
            }
        }
    }
}

/// Every event that holds for some time and that no erasure follows or is may be
/// kept, whatever it does to its element, and no other; each is listed once, the
/// newest first.
pub proof fn law_candidates_are_complete(events: Seq<EventView>)
    ensures
        forall|i: int|
            #![trigger candidates_spec(events).contains(i)]
            candidates_spec(events).contains(i) <==> 0 <= i < events.len()
                && events[i].valid_from.us < events[i].valid_to.us && (forall|j: int|
                i <= j < events.len() ==> !((#[trigger] events[j]).op is Erase)),
        forall|a: int, b: int|
            0 <= a < b < candidates_spec(events).len() ==> candidates_spec(events)[a]
                > candidates_spec(events)[b],
{
    let lo = erased_upto(events);
    lemma_erased_bound(events);
    lemma_erased_last(events);
    lemma_candidates_listed(events, lo, events.len() as int);
    assert forall|i: int|
        #![trigger candidates_spec(events).contains(i)]
        candidates_spec(events).contains(i) <==> 0 <= i < events.len()
            && events[i].valid_from.us < events[i].valid_to.us && (forall|j: int|
            i <= j < events.len() ==> !((#[trigger] events[j]).op is Erase)) by {
        if 0 <= i < lo {
            assert(events[lo - 1].op is Erase);
        }
    }
}

proof fn lemma_kept_has(places: Seq<int>, verdicts: Seq<Verdict>, n: int, k: int)
    requires
        0 <= k < n,
        verdicts[k].ranges > 0,
    ensures
        kept_upto(places, verdicts, n).contains((places[k], recency_spec(verdicts[k].recency))),
    decreases n,
{
    let all = kept_upto(places, verdicts, n);
    let before = kept_upto(places, verdicts, n - 1);
    let x = (places[k], recency_spec(verdicts[k].recency));
    if k < n - 1 {
        lemma_kept_has(places, verdicts, n - 1, k);
        let m = before.index_of(x);
        assert(all[m] == x);
    } else {
        assert(all[all.len() - 1] == x);
    }
}

proof fn lemma_kept_from(places: Seq<int>, verdicts: Seq<Verdict>, n: int, m: int) -> (k: int)
    requires
        0 <= m < kept_upto(places, verdicts, n).len(),
    ensures
        0 <= k < n,
        verdicts[k].ranges > 0,
        kept_upto(places, verdicts, n)[m] == (places[k], recency_spec(verdicts[k].recency)),
    decreases n,
{
    let before = kept_upto(places, verdicts, n - 1);
    if m < before.len() {
        lemma_kept_from(places, verdicts, n - 1, m)
    } else {
        n - 1
    }
}

proof fn lemma_kept_descends(places: Seq<int>, verdicts: Seq<Verdict>, n: int, a: int, b: int)
    requires
        n <= places.len(),
        forall|a: int, b: int| 0 <= a < b < places.len() ==> places[a] > places[b],
        0 <= a < b < kept_upto(places, verdicts, n).len(),
    ensures
        kept_upto(places, verdicts, n)[a].0 > kept_upto(places, verdicts, n)[b].0,
    decreases n,
{
    let before = kept_upto(places, verdicts, n - 1);
    if b < before.len() {
        lemma_kept_descends(places, verdicts, n - 1, a, b);
    } else {
        let k = lemma_kept_from(places, verdicts, n - 1, a);
        assert(places[k] > places[n - 1]);
    }
}

/// A compaction drops an event only where it is an erasure or stands before one,
/// where it holds for no time, or where its verdict leaves it no range. All the
/// others are kept, with the recency of their verdict, in the order in which
/// they stood.
pub proof fn law_only_what_cannot_be_seen_is_dropped(
    events: Seq<EventView>,
    verdicts: Seq<Verdict>,
)
    requires
        verdicts_ok(events, verdicts),
    ensures
        forall|i: int|
            0 <= i < events.len() && (#[trigger] events[i]).valid_from.us < events[i].valid_to.us
                && (forall|j: int| i <= j < events.len() ==> !((#[trigger] events[j]).op is Erase))
                ==> exists|k: int|
                0 <= k < verdicts.len() && #[trigger] candidates_spec(events)[k] == i && (
                verdicts[k].ranges > 0 ==> retained_spec(events, verdicts).contains(
                    (i, recency_spec(verdicts[k].recency)),
                )),
        forall|m: int|
            #![trigger retained_spec(events, verdicts)[m]]
            0 <= m < retained_spec(events, verdicts).len() ==> exists|k: int|
                0 <= k < verdicts.len() && (#[trigger] verdicts[k]).ranges > 0 && retained_spec(
                    events,
                    verdicts,
                )[m] == (candidates_spec(events)[k], recency_spec(verdicts[k].recency)),
        forall|a: int, b: int|
            0 <= a < b < retained_spec(events, verdicts).len() ==> retained_spec(
                events,
                verdicts,
            )[a].0 < retained_spec(events, verdicts)[b].0,
{
    let places = candidates_spec(events);
    let n = verdicts.len() as int;
    let kept = kept_upto(places, verdicts, n);
    let out = retained_spec(events, verdicts);
    law_candidates_are_complete(events);
    assert forall|i: int|
        0 <= i < events.len() && (#[trigger] events[i]).valid_from.us < events[i].valid_to.us && (
        forall|j: int|
            i <= j < events.len() ==> !((#[trigger] events[j]).op is Erase)) implies exists|k: int|
        0 <= k < verdicts.len() && #[trigger] candidates_spec(events)[k] == i && (verdicts[k].ranges
            > 0 ==> out.contains((i, recency_spec(verdicts[k].recency)))) by {
        assert(places.contains(i));
        let k = places.index_of(i);
        assert(candidates_spec(events)[k] == i);
        if verdicts[k].ranges > 0 {
            let x = (i, recency_spec(verdicts[k].recency));
            lemma_kept_has(places, verdicts, n, k);
            let m = kept.index_of(x);
            assert(out[kept.len() - 1 - m] == x);
        }
    }
    assert forall|m: int|
        #![trigger out[m]]
        0 <= m < out.len() implies exists|k: int|
        0 <= k < verdicts.len() && (#[trigger] verdicts[k]).ranges > 0 && out[m] == (
            candidates_spec(events)[k],
            recency_spec(verdicts[k].recency),
        ) by {
        let k = lemma_kept_from(places, verdicts, n, kept.len() - 1 - m);
        assert(verdicts[k].ranges > 0);
    }
    assert forall|a: int, b: int| 0 <= a < b < out.len() implies out[a].0 < out[b].0 by {
        lemma_kept_descends(places, verdicts, n, kept.len() - 1 - b, kept.len() - 1 - a);
    }
}

/// An event goes to a block of its own recency that covers its key: for a plan
/// that names the blocks, to the first of them that does; for one that splits by
/// recency, to the block of the plan's level, part and number. It goes nowhere
/// only where no named block takes it.
pub proof fn law_events_go_where_they_belong(
    plan: PlanView,
    e: EventView,
    order: SortOrder,
    recency: Recency,
)
    ensures
        match plan {
            PlanView::L0RecencySplit { level, part, block } => output_key_spec(
                plan,
                e,
                order,
                recency,
            ) matches Some(k) && k.level == level && k.part == part && k.block == block && k.recency
                == recency,
            PlanView::Exact(keys) => match output_key_spec(plan, e, order, recency) {
                Some(k) => keys.contains(k) && k.recency == recency && part_contains(
                    k.part,
                    sort_key_spec(e, order),
                ),
                None => forall|i: int|
                    0 <= i < keys.len() ==> !((#[trigger] keys[i]).recency == recency
                        && part_contains(keys[i].part, sort_key_spec(e, order))),
            },
        },
{
    match plan {
        PlanView::Exact(keys) => {
            lemma_first_taking(keys, e, order, recency);
        },
        _ => {},
    }
}

proof fn lemma_first_taking(
    keys: Seq<TrieKeyView>,
    e: EventView,
    order: SortOrder,
    recency: Recency,
)
    ensures
        match first_taking(keys, e, order, recency) {
            Some(k) => keys.contains(k) && k.recency == recency && part_contains(
                k.part,
                sort_key_spec(e, order),
            ),
            None => forall|i: int|
                0 <= i < keys.len() ==> !((#[trigger] keys[i]).recency == recency && part_contains(
                    keys[i].part,
                    sort_key_spec(e, order),
                )),
        },
    decreases keys.len(),
{
    if keys.len() > 0 {
        let rest = keys.drop_first();
        lemma_first_taking(rest, e, order, recency);
        if takes(keys[0], e, order, recency) {
            assert(keys.contains(keys[0]));
        } else {
            match first_taking(rest, e, order, recency) {
                Some(k) => {
                    assert(keys[rest.index_of(k) + 1] == k);
                },
                None => {
                    assert forall|i: int| 0 <= i < keys.len() implies !((
                    #[trigger] keys[i]).recency == recency && part_contains(
                        keys[i].part,
                        sort_key_spec(e, order),
                    )) by {
                        if i > 0 {
                            assert(rest[i - 1] == keys[i]);
                        }
                    }
                },
            }
        }
    }
}

/// Rows are sorted by their own identifier, by their source or by their
/// destination, as the order says.
pub proof fn law_rows_have_the_key_of_their_order(e: EventView)
    ensures
        sort_key_spec(e, SortOrder::ByIid) == e.iid,
        e.src matches Some(s) ==> sort_key_spec(e, SortOrder::BySrc) == s,
        e.dst matches Some(d) ==> sort_key_spec(e, SortOrder::ByDst) == d,
{
}

/// What may be seen without end is current; what may be seen until an instant
/// goes to the week of that instant, which is the same for all its days.
pub proof fn law_recency_is_the_week(a: Instant, b: Instant)
    ensures
        recency_spec(a) is Current <==> a.us == i64::MAX,
        a.us != i64::MAX && b.us != i64::MAX && monday(day_of(a)) == monday(day_of(b))
            ==> recency_spec(a) == recency_spec(b),
{
}

proof fn lemma_entity_routed(
    plan: PlanView,
    order: SortOrder,
    events: Seq<EventView>,
    places: Seq<(int, Recency)>,
    acc: Seq<Routed>,
)
    requires
        try_fold(
            places,
            acc,
            |acc: Seq<Routed>, p: (int, Recency)| route_step(plan, order, events, acc, p),
        ) is Ok,
    ensures
        ({
            let out = try_fold(
                places,
                acc,
                |acc: Seq<Routed>, p: (int, Recency)| route_step(plan, order, events, acc, p),
            )->Ok_0;
            &&& out.len() == acc.len() + places.len()
            &&& forall|i: int| 0 <= i < acc.len() ==> #[trigger] out[i] == acc[i]
            &&& forall|k: int|
                0 <= k < places.len() ==> (#[trigger] out[acc.len() + k]).0 == events[places[k].0]
                    && output_key_spec(plan, events[places[k].0], order, places[k].1) == Some(
                    out[acc.len() + k].1,
                )
        }),
    decreases places.len(),
{
    let step = |acc: Seq<Routed>, p: (int, Recency)| route_step(plan, order, events, acc, p);
    if places.len() > 0 {
        let front = places.drop_last();
        lemma_entity_routed(plan, order, events, front, acc);
        let mid = try_fold(front, acc, step)->Ok_0;
        let out = try_fold(places, acc, step)->Ok_0;
        assert(route_step(plan, order, events, mid, places.last()) == Ok::<Seq<Routed>, ErrorView>(
            out,
        ));
        assert forall|k: int| 0 <= k < places.len() implies (
        #[trigger] out[acc.len() + k]).0 == events[places[k].0] && output_key_spec(
            plan,
            events[places[k].0],
            order,
            places[k].1,
        ) == Some(out[acc.len() + k].1) by {
            if k < front.len() {
                assert(front[k] == places[k]);
                assert(mid[acc.len() + k] == out[acc.len() + k]);
            }
        }
    }
}

/// All that is kept of an entity is routed, each event once and in its order, to
/// the block that its verdict's recency and its key give; what was routed before
/// stays.
pub proof fn law_kept_events_are_routed_once(
    plan: PlanView,
    order: SortOrder,
    events: Seq<EventView>,
    verdicts: Seq<Verdict>,
    acc: Seq<Routed>,
)
    requires
        route_entity(plan, order, events, verdicts, acc) is Ok,
    ensures
        ({
            let out = route_entity(plan, order, events, verdicts, acc)->Ok_0;
            let kept = retained_spec(events, verdicts);
            &&& out.len() == acc.len() + kept.len()
            &&& forall|i: int| 0 <= i < acc.len() ==> #[trigger] out[i] == acc[i]
            &&& forall|k: int|
                0 <= k < kept.len() ==> (#[trigger] out[acc.len() + k]).0 == events[kept[k].0]
                    && output_key_spec(plan, events[kept[k].0], order, kept[k].1) == Some(
                    out[acc.len() + k].1,
                )
        }),
{
    lemma_entity_routed(plan, order, events, retained_spec(events, verdicts), acc);
}

/// A block holds exactly the rows that were routed to it, and sorting loses
/// none.
pub proof fn law_blocks_hold_what_was_routed(
    acc: Seq<Routed>,
    key: TrieKeyView,
    order: SortOrder,
    e: EventView,
)
    requires
        acc.len() <= usize::MAX,
    ensures
        sorted_rows(rows_for(acc, key), order).len() == rows_for(acc, key).len(),
        sorted_rows(rows_for(acc, key), order).contains(e) <==> acc.contains((e, key)),
{
    lemma_rows_for(acc, key, e);
    let rows = rows_for(acc, key);
    law_sorting_keeps_every_entry::<RowKey, EventView>(
        rows,
        rows.map_values(|e: EventView| row_key(e, order)),
    );
}

proof fn lemma_rows_for(acc: Seq<Routed>, key: TrieKeyView, e: EventView)
    ensures
        rows_for(acc, key).len() <= acc.len(),
        rows_for(acc, key).contains(e) <==> acc.contains((e, key)),
    decreases acc.len(),
{
    if acc.len() == 0 {
        reveal(Seq::filter);
    } else {
        let front = acc.drop_last();
        let x = acc.last();
        lemma_rows_for(front, key, e);
        assert(acc =~= front.push(x));
        lemma_rows_push(front, x, key);
        let rows = rows_for(front, key);
        let all = rows_for(acc, key);
        if front.contains((e, key)) {
            assert(acc[front.index_of((e, key))] == (e, key));
            assert(all[rows.index_of(e)] == e);
        }
        if acc.contains((e, key)) {
            let k = acc.index_of((e, key));
            if k < front.len() {
                assert(front[k] == (e, key));
            } else {
                assert(all[all.len() - 1] == e);
            }
        }
        if all.contains(e) {
            let k = all.index_of(e);
            if k < rows.len() {
                assert(rows[k] == e);
            } else {
                assert(acc[acc.len() - 1] == (e, key));
            }
        }
    }
}

} // verus!
