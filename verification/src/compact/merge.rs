//! The events of the blocks that go in, entity by entity in the order of their
//! time.

use crate::error::{EngineError, ErrorView, IndexError, IndexErrorView};
use crate::event::{events_wf, Event, EventView};
use crate::scan::{history, lemma_history_empty, lemma_history_push};
use crate::sorted::{
    distinct_keys, lemma_listed, lemma_map_keys_sorted, lemma_sorted_domain, lemma_sorted_exists, listed,
    sorted_seq,    OrderedKey, SortedMap,
};
use crate::stable::{stable_sort, stable_sorted};
use crate::state::PageMeta;
use crate::text::views;
use crate::trie::{TrieKey, TrieKeyView};
use crate::types::Iid;
use vstd::prelude::*;

verus! {

/// Where a page stands in the data of its block; refused where the data does
/// not hold it.
pub fn page_range(data_len: usize, offset: u64, len: u64) -> (r: Result<(usize, usize), EngineError>)
    ensures
        match r {
            Ok((start, end)) => offset + len <= data_len && start == offset && end == offset + len,
            Err(e) => offset + len > data_len && e@ == ErrorView::Index(
                IndexErrorView::Other("compaction page range outside data"@),
            ),
        },
{
    match offset.checked_add(len) {
        Some(end) => {
            if end <= data_len as u64 {
                return Ok((offset as usize, end as usize));
            }
        },
        None => {},
    }
    Err(
        EngineError::Index(IndexError::Other("compaction page range outside data".to_owned())),
    )
}

/// The pages of a block in the order in which they stand in it.
pub fn pages_in_order(pages: Vec<PageMeta>) -> (r: Vec<PageMeta>)
    ensures
        r@ == stable_sorted::<u64, PageMeta>(pages@, pages@.map_values(|p: PageMeta| p.offset)),
{
    let mut offsets: Vec<u64> = Vec::new();
    let mut i: usize = 0;
    while i < pages.len()
        invariant
            i <= pages.len(),
            offsets@.len() == i,
            forall|k: int| 0 <= k < i ==> #[trigger] offsets@[k] == pages@[k].offset,
        decreases pages.len() - i,
    {
        offsets.push(pages[i].offset);
        i += 1;
    }
    assert(offsets@.map_values(|k: u64| k.model()) =~= pages@.map_values(
        |p: PageMeta| p.offset,
    ));
    stable_sort(pages, offsets)
}

/// The events of an entity in the first `n` blocks. In a block they stand from
/// the newest to the oldest.
pub open spec fn merged_upto(blocks: Seq<Seq<EventView>>, iid: Iid, n: int) -> Seq<EventView>
    decreases n,
{
    if n <= 0 {
        Seq::empty()
    } else {
        merged_upto(blocks, iid, n - 1) + history(blocks[n - 1], iid).reverse()
    }
}

/// The events of the blocks, block by block in the order of their names.
pub open spec fn block_events(inputs: Map<TrieKeyView, Vec<Event>>) -> Seq<Seq<EventView>> {
    sorted_seq::<TrieKey>(inputs.dom()).map_values(|k: TrieKeyView| views(inputs[k]@))
}

/// The events of an entity, from the oldest to the newest.
pub open spec fn merged(inputs: Map<TrieKeyView, Vec<Event>>, iid: Iid) -> Seq<EventView> {
    merged_upto(block_events(inputs), iid, block_events(inputs).len() as int)
}

/// Each entity with its events.
pub open spec fn is_merge(r: Map<Iid, Vec<Event>>, of: spec_fn(Iid) -> Seq<EventView>) -> bool {
    &&& forall|i: Iid| #[trigger] r.dom().contains(i) <==> of(i).len() > 0
    &&& forall|i: Iid| #[trigger]
        r.dom().contains(i) ==> events_wf(r[i]@) && views(r[i]@) == of(i)
}

proof fn lemma_history_first(e: EventView, rest: Seq<EventView>, iid: Iid)
    ensures
        history(seq![e] + rest, iid).reverse() == (if e.iid == iid {
            history(rest, iid).reverse().push(e)
        } else {
            history(rest, iid).reverse()
        }),
{
    let pred = |e: EventView| e.iid == iid;
    Seq::filter_distributes_over_add(seq![e], rest, pred);
    let none = Seq::<EventView>::empty();
    crate::scan::lemma_history_empty(iid);
    crate::scan::lemma_history_push(none, e, iid);
    assert(none.push(e) =~= seq![e]);
    let first = history(seq![e], iid);
    assert(history(seq![e] + rest, iid) == first + history(rest, iid));
    if e.iid == iid {
        assert(first =~= seq![e]);
        assert((seq![e] + history(rest, iid)).reverse() =~= history(rest, iid).reverse().push(e));
    } else {
        assert(none + history(rest, iid) =~= history(rest, iid));
    }
}

pub(crate) fn merge_block(by_iid: &mut SortedMap<Iid, Vec<Event>>, block: &Vec<Event>, Ghost(of): Ghost<
    spec_fn(Iid) -> Seq<EventView>,
>)
    requires
        old(by_iid).wf(),
        events_wf(block@),
        is_merge(old(by_iid)@, of),
    ensures
        final(by_iid).wf(),
        is_merge(
            final(by_iid)@,
            |i: Iid| of(i) + history(views(block@), i).reverse(),
        ),
{
    let ghost all = views(block@);
    let n: usize = block.len();
    let mut j: usize = n;
    proof {
        assert(all.subrange(n as int, n as int) =~= Seq::<EventView>::empty());
        assert forall|i: Iid| #[trigger]
            of(i) + history(all.subrange(n as int, n as int), i).reverse() == of(i) by {
            crate::scan::lemma_history_empty(i);
            assert(of(i) + Seq::<EventView>::empty().reverse() =~= of(i));
        }
        let now = |i: Iid| of(i) + history(all.subrange(n as int, n as int), i).reverse();
        assert(is_merge(by_iid@, now)) by {
            assert forall|i: Iid| #[trigger] by_iid@.dom().contains(i) <==> now(i).len() > 0 by {
                assert(now(i) == of(i));
            }
            assert forall|i: Iid| #[trigger] by_iid@.dom().contains(i) implies events_wf(
                by_iid@[i]@,
            ) && views(by_iid@[i]@) == now(i) by {
                assert(now(i) == of(i));
            }
        }
    }
    while j > 0
        invariant
            j <= n,
            n == block.len(),
            all == views(block@),
            events_wf(block@),
            by_iid.wf(),
            is_merge(
                by_iid@,
                |i: Iid| of(i) + history(all.subrange(j as int, n as int), i).reverse(),
            ),
        decreases j,
    {
        let ghost now = |i: Iid| of(i) + history(all.subrange(j as int, n as int), i).reverse();
        let ghost next = |i: Iid| of(i) + history(all.subrange(j - 1, n as int), i).reverse();
        let ghost before = by_iid@;
        j = j - 1;
        let event = &block[j];
        let ghost e = event@;
        proof {
            let rest = all.subrange(j + 1, n as int);
            assert(all.subrange(j as int, n as int) =~= seq![e] + rest);
            assert forall|i: Iid| #[trigger] next(i) == (if e.iid == i {
                now(i).push(e)
            } else {
                now(i)
            }) by {
                lemma_history_first(e, rest, i);
                assert(of(i) + history(rest, i).reverse().push(e) =~= (of(i) + history(
                    rest,
                    i,
                ).reverse()).push(e));
            }
        }
        let mut list = match by_iid.remove(&event.iid) {
            Some(list) => list,
            None => Vec::new(),
        };
        let ghost list0 = list@;
        proof {
            if before.dom().contains(e.iid) {
                assert(views(list0) == now(e.iid));
            } else {
                assert(now(e.iid).len() == 0);
                assert(views(list0) =~= now(e.iid));
            }
        }
        list.push(event.clone_event());
        assert(views(list@) =~= views(list0).push(e));
        let ghost list1 = list;
        by_iid.insert(event.iid, list);
        proof {
            assert(by_iid@ =~= before.insert(e.iid, list1));
            assert forall|i: Iid| #[trigger] by_iid@.dom().contains(i) <==> next(i).len() > 0 by {
                assert(next(i) == (if e.iid == i {
                    now(i).push(e)
                } else {
                    now(i)
                }));
                assert(before.dom().contains(i) <==> now(i).len() > 0);
            }
            assert forall|i: Iid| #[trigger] by_iid@.dom().contains(i) implies events_wf(
                by_iid@[i]@,
            ) && views(by_iid@[i]@) == next(i) by {
                assert(next(i) == (if e.iid == i {
                    now(i).push(e)
                } else {
                    now(i)
                }));
                if i != e.iid {
                    assert(before.dom().contains(i));
                }
            }
            assert(is_merge(by_iid@, next));
        }
    }
    proof {
        assert(all.subrange(0, n as int) =~= all);
    }
}

/// Merges the blocks: each entity with its events from the oldest to the
/// newest. The blocks count in the order of their names, in whatever order they
/// were read.
pub fn merge_inputs(inputs: &SortedMap<TrieKey, Vec<Event>>) -> (r: SortedMap<Iid, Vec<Event>>)
    requires
        inputs.wf(),
        forall|k: TrieKeyView| #[trigger] inputs@.dom().contains(k) ==> events_wf(inputs@[k]@),
    ensures
        r.wf(),
        is_merge(r@, |i: Iid| merged(inputs@, i)),
{
    let n = inputs.len();
    let ghost keys = inputs.keys();
    let ghost blocks = block_events(inputs@);
    let mut by_iid: SortedMap<Iid, Vec<Event>> = SortedMap::new();
    let mut i: usize = 0;
    proof {
        lemma_sorted_domain(*inputs);
        lemma_map_keys_sorted(*inputs);
    }
    while i < n
        invariant
            i <= n,
            n == keys.len() == blocks.len(),
            keys == inputs.keys(),
            keys == sorted_seq::<TrieKey>(inputs@.dom()),
            blocks == block_events(inputs@),
            forall|k: TrieKeyView| #[trigger]
                inputs@.dom().contains(k) ==> events_wf(inputs@[k]@),
            forall|k: int|
                0 <= k < keys.len() ==> inputs@.dom().contains(#[trigger] keys[k])
                    && inputs@[keys[k]] == inputs.values()[k],
            by_iid.wf(),
            is_merge(by_iid@, |x: Iid| merged_upto(blocks, x, i as int)),
        decreases n - i,
    {
        let ghost of = |x: Iid| merged_upto(blocks, x, i as int);
        let block = inputs.value_at(i);
        proof {
            assert(inputs@.dom().contains(keys[i as int]));
            assert(blocks[i as int] == views(block@));
        }
        merge_block(&mut by_iid, block, Ghost(of));
        proof {
            let a = |x: Iid| of(x) + history(views(block@), x).reverse();
            let b = |x: Iid| merged_upto(blocks, x, i + 1);
            assert forall|x: Iid| #[trigger] a(x) == b(x) by {}
            assert(a =~= b);
        }
        i += 1;
    }
    proof {
        let a = |x: Iid| merged_upto(blocks, x, n as int);
        let b = |x: Iid| merged(inputs@, x);
        assert(a =~= b);
    }
    by_iid
}

/// A list of blocks holds one with this name and these events.
pub open spec fn lists_block(
    list: Seq<(TrieKey, Vec<Event>)>,
    key: TrieKeyView,
    events: Seq<EventView>,
) -> bool {
    exists|i: int|
        0 <= i < list.len() && (#[trigger] list[i]).0@ == key && views(list[i].1@) == events
}

/// Two lists hold the same blocks.
pub open spec fn same_blocks(
    a: Seq<(TrieKey, Vec<Event>)>,
    b: Seq<(TrieKey, Vec<Event>)>,
) -> bool {
    forall|k: TrieKeyView, e: Seq<EventView>| #[trigger]
        lists_block(a, k, e) <==> lists_block(b, k, e)
}

proof fn lemma_block_found(
    a: Seq<(TrieKey, Vec<Event>)>,
    b: Seq<(TrieKey, Vec<Event>)>,
    key: TrieKeyView,
)
    requires
        distinct_keys(a),
        distinct_keys(b),
        same_blocks(a, b),
        listed(a).dom().contains(key),
    ensures
        listed(b).dom().contains(key),
        views(listed(a)[key]@) == views(listed(b)[key]@),
{
    lemma_listed(a);
    lemma_listed(b);
    let i = choose|i: int| 0 <= i < a.len() && (#[trigger] a[i]).0.model() == key;
    assert(lists_block(a, key, views(a[i].1@)));
    assert(lists_block(b, key, views(a[i].1@)));
    let j = choose|j: int|
        0 <= j < b.len() && (#[trigger] b[j]).0@ == key && views(b[j].1@) == views(a[i].1@);
    assert(b[j].0.model() == key);
}

/// The merge does not depend on the order in which the blocks are listed.
pub proof fn law_merge_ignores_the_order_of_inputs(
    a: Seq<(TrieKey, Vec<Event>)>,
    b: Seq<(TrieKey, Vec<Event>)>,
    iid: Iid,
)
    requires
        distinct_keys(a),
        distinct_keys(b),
        same_blocks(a, b),
    ensures
        merged(listed(a), iid) == merged(listed(b), iid),
{
    assert forall|k: TrieKeyView| listed(a).dom().contains(k) <==> listed(b).dom().contains(k) by {
        if listed(a).dom().contains(k) {
            lemma_block_found(a, b, k);
        }
        if listed(b).dom().contains(k) {
            lemma_block_found(b, a, k);
        }
    }
    assert(listed(a).dom() =~= listed(b).dom());
    lemma_listed(a);
    lemma_sorted_exists::<TrieKey>(listed(a).dom());
    let keys = sorted_seq::<TrieKey>(listed(a).dom());
    assert(block_events(listed(a)) =~= block_events(listed(b))) by {
        assert forall|i: int| 0 <= i < keys.len() implies #[trigger] block_events(listed(a))[i]
            == block_events(listed(b))[i] by {
            assert(keys.to_set().contains(keys[i]));
            lemma_block_found(a, b, keys[i]);
        }
    }
}

proof fn lemma_own_history(events: Seq<EventView>, iid: Iid, e: EventView)
    ensures
        history(events, iid).contains(e) <==> events.contains(e) && e.iid == iid,
    decreases events.len(),
{
    if events.len() == 0 {
        lemma_history_empty(iid);
        assert(events =~= Seq::<EventView>::empty());
    } else {
        let front = events.drop_last();
        let last = events.last();
        lemma_own_history(front, iid, e);
        lemma_history_push(front, last, iid);
        assert(events =~= front.push(last));
        let before = history(front, iid);
        let all = history(events, iid);
        if front.contains(e) {
            assert(events[front.index_of(e)] == e);
        }
        if before.contains(e) {
            assert(all[before.index_of(e)] == e);
        }
        if events.contains(e) && e.iid == iid {
            let k = events.index_of(e);
            if k < front.len() {
                assert(front[k] == e);
            } else {
                assert(all[all.len() - 1] == e);
            }
        }
        if all.contains(e) {
            let k = all.index_of(e);
            if k < before.len() {
                assert(before[k] == e);
            } else {
                assert(events[events.len() - 1] == e);
            }
        }
    }
}

proof fn lemma_merged_holds(blocks: Seq<Seq<EventView>>, iid: Iid, n: int, e: EventView)
    requires
        0 <= n <= blocks.len(),
    ensures
        merged_upto(blocks, iid, n).contains(e) <==> e.iid == iid && exists|b: int|
            0 <= b < n && (#[trigger] blocks[b]).contains(e),
    decreases n,
{
    if n > 0 {
        lemma_merged_holds(blocks, iid, n - 1, e);
        lemma_own_history(blocks[n - 1], iid, e);
        let a = merged_upto(blocks, iid, n - 1);
        let h = history(blocks[n - 1], iid);
        let b = h.reverse();
        if h.contains(e) {
            assert(b[h.len() - 1 - h.index_of(e)] == e);
            assert((a + b)[a.len() + (h.len() - 1 - h.index_of(e))] == e);
        }
        if a.contains(e) {
            assert((a + b)[a.index_of(e)] == e);
        }
        if (a + b).contains(e) {
            let k = (a + b).index_of(e);
            if k < a.len() {
                assert(a[k] == e);
            } else {
                assert(h[h.len() - 1 - (k - a.len())] == e);
            }
        }
    }
}

/// Merging loses nothing and adds nothing: the events of an entity are those that
/// some block holds for it.
pub proof fn law_merging_loses_nothing(
    inputs: Map<TrieKeyView, Vec<Event>>,
    iid: Iid,
    e: EventView,
)
    requires
        inputs.dom().finite(),
    ensures
        merged(inputs, iid).contains(e) <==> e.iid == iid && exists|k: TrieKeyView|
            #[trigger] inputs.dom().contains(k) && views(inputs[k]@).contains(e),
{
    let keys = sorted_seq::<TrieKey>(inputs.dom());
    let blocks = block_events(inputs);
    lemma_sorted_exists::<TrieKey>(inputs.dom());
    lemma_merged_holds(blocks, iid, blocks.len() as int, e);
    if exists|b: int| 0 <= b < blocks.len() && (#[trigger] blocks[b]).contains(e) {
        let b = choose|b: int| 0 <= b < blocks.len() && (#[trigger] blocks[b]).contains(e);
        assert(keys.to_set().contains(keys[b]));
        assert(inputs.dom().contains(keys[b]));
    }
    if exists|k: TrieKeyView|
        #[trigger] inputs.dom().contains(k) && views(inputs[k]@).contains(e) {
        let k = choose|k: TrieKeyView|
            #[trigger] inputs.dom().contains(k) && views(inputs[k]@).contains(e);
        assert(keys.to_set().contains(k));
        let b = keys.index_of(k);
        assert(blocks[b] == views(inputs[k]@));
        assert(blocks[b].contains(e));
    }
}

proof fn lemma_ordered_parts(blocks: Seq<Seq<EventView>>, iid: Iid, n: int)
    requires
        0 <= n <= blocks.len(),
        forall|b: int, i: int, j: int|
            0 <= b < n && 0 <= i < j < blocks[b].len() && blocks[b][i].iid == iid
                && blocks[b][j].iid == iid ==> (#[trigger] blocks[b][i]).system_from.us >= (
            #[trigger] blocks[b][j]).system_from.us,
        forall|a: int, b: int, x: EventView, y: EventView|
            0 <= a < b < n && #[trigger] blocks[a].contains(x) && #[trigger] blocks[b].contains(y)
                && x.iid == iid && y.iid == iid ==> x.system_from.us <= y.system_from.us,
    ensures
        forall|i: int, j: int|
            0 <= i < j < merged_upto(blocks, iid, n).len() ==> (#[trigger] merged_upto(
                blocks,
                iid,
                n,
            )[i]).system_from.us <= (#[trigger] merged_upto(blocks, iid, n)[j]).system_from.us,
    decreases n,
{
    if n > 0 {
        lemma_ordered_parts(blocks, iid, n - 1);
        let a = merged_upto(blocks, iid, n - 1);
        let h = history(blocks[n - 1], iid);
        let b = h.reverse();
        let all = merged_upto(blocks, iid, n);
        lemma_history_descends(blocks[n - 1], iid);
        assert forall|i: int, j: int| 0 <= i < j < all.len() implies (
        #[trigger] all[i]).system_from.us <= (#[trigger] all[j]).system_from.us by {
            if j < a.len() {
                assert(all[i] == a[i] && all[j] == a[j]);
            } else if i >= a.len() {
                assert(all[i] == h[h.len() - 1 - (i - a.len())]);
                assert(all[j] == h[h.len() - 1 - (j - a.len())]);
            } else {
                assert(all[i] == a[i]);
                assert(a.contains(a[i]));
                lemma_merged_holds(blocks, iid, n - 1, a[i]);
                let p = choose|p: int| 0 <= p < n - 1 && (#[trigger] blocks[p]).contains(a[i]);
                let y = h[h.len() - 1 - (j - a.len())];
                assert(all[j] == y);
                assert(h.contains(y));
                lemma_own_history(blocks[n - 1], iid, y);
                assert(blocks[p].contains(a[i]) && blocks[n - 1].contains(y));
            }
        }
    }
}

proof fn lemma_history_descends(events: Seq<EventView>, iid: Iid)
    requires
        forall|i: int, j: int|
            0 <= i < j < events.len() && events[i].iid == iid && events[j].iid == iid ==> (
            #[trigger] events[i]).system_from.us >= (#[trigger] events[j]).system_from.us,
    ensures
        forall|i: int, j: int|
            0 <= i < j < history(events, iid).len() ==> (#[trigger] history(
                events,
                iid,
            )[i]).system_from.us >= (#[trigger] history(events, iid)[j]).system_from.us,
    decreases events.len(),
{
    if events.len() == 0 {
        lemma_history_empty(iid);
        assert(events =~= Seq::<EventView>::empty());
    } else {
        let front = events.drop_last();
        let last = events.last();
        assert forall|i: int, j: int|
            0 <= i < j < front.len() && front[i].iid == iid && front[j].iid == iid implies (
        #[trigger] front[i]).system_from.us >= (#[trigger] front[j]).system_from.us by {
            assert(front[i] == events[i] && front[j] == events[j]);
        }
        lemma_history_descends(front, iid);
        lemma_history_push(front, last, iid);
        assert(events =~= front.push(last));
        let before = history(front, iid);
        let all = history(events, iid);
        assert forall|i: int, j: int| 0 <= i < j < all.len() implies (
        #[trigger] all[i]).system_from.us >= (#[trigger] all[j]).system_from.us by {
            if j < before.len() {
                assert(all[i] == before[i] && all[j] == before[j]);
            } else {
                assert(all[i] == before[i]);
                assert(before.contains(before[i]));
                lemma_own_history(front, iid, before[i]);
                let p = front.index_of(before[i]);
                assert(events[p] == before[i]);
                assert(events[events.len() - 1] == last);
            }
        }
    }
}

/// The events of an entity come out from the oldest to the newest: each block
/// holds them from the newest on, and a later block holds none that is older.
pub proof fn law_merged_events_are_in_order(inputs: Map<TrieKeyView, Vec<Event>>, iid: Iid)
    requires
        forall|b: int, i: int, j: int|
            0 <= b < block_events(inputs).len() && 0 <= i < j < block_events(inputs)[b].len()
                && block_events(inputs)[b][i].iid == iid && block_events(inputs)[b][j].iid == iid
                ==> (#[trigger] block_events(inputs)[b][i]).system_from.us >= (
            #[trigger] block_events(inputs)[b][j]).system_from.us,
        forall|a: int, b: int, x: EventView, y: EventView|
            0 <= a < b < block_events(inputs).len() && #[trigger] block_events(inputs)[a].contains(
                x,
            ) && #[trigger] block_events(inputs)[b].contains(y) && x.iid == iid && y.iid == iid
                ==> x.system_from.us <= y.system_from.us,
    ensures
        forall|i: int, j: int|
            0 <= i < j < merged(inputs, iid).len() ==> (#[trigger] merged(
                inputs,
                iid,
            )[i]).system_from.us <= (#[trigger] merged(inputs, iid)[j]).system_from.us,
{
    lemma_ordered_parts(block_events(inputs), iid, block_events(inputs).len() as int);
}

} // verus!
