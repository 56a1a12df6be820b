//! The events of an entity out of all places that hold some: the blocks, the
//! unflushed tail and the statements before.

use crate::compact::merge::{is_merge, merge_block, merged_upto};
use crate::event::{events_wf, Event, EventView, Op, OpView};
use crate::scan::{
    adjacency_spec, at_node, ends_known, followable, history, is_edge_selection, is_grouping,
    law_adjacency_is_complete, law_anchored_is_filtered, lemma_history_empty, lemma_history_push,
    lemma_history_some, near_end, EdgeFilter, EdgeVersions, IidSel,
};
use crate::sorted::{lemma_ascending_index, lemma_sorted_domain, SortedMap};
use crate::state::PageMeta;
use crate::text::{clone_texts, lemma_views_push, views};
use crate::types::Iid;
use crate::visible::{AdjDirection, AdjEntry, Payload, PayloadView};
use vstd::prelude::*;

verus! {

/// The events of some blocks.
pub open spec fn block_views(blocks: Seq<Vec<Event>>) -> Seq<Seq<EventView>> {
    blocks.map_values(|b: Vec<Event>| views(b@))
}

/// What the tail holds of an entity.
pub open spec fn tail_of(tail: Map<Iid, Vec<Event>>, iid: Iid) -> Seq<EventView> {
    if tail.dom().contains(iid) {
        views(tail[iid]@)
    } else {
        Seq::empty()
    }
}

/// All events of an entity, from the oldest to the newest: those of the blocks,
/// oldest block first, each block's own the other way round than it holds them,
/// and then those of the tail.
pub open spec fn sourced(
    blocks: Seq<Seq<EventView>>,
    tail: Map<Iid, Vec<Event>>,
    iid: Iid,
) -> Seq<EventView> {
    merged_upto(blocks, iid, blocks.len() as int) + tail_of(tail, iid)
}

/// Merges the rows of the blocks, as the blocks hold them, with the tail.
pub fn merge_sources(blocks: &Vec<Vec<Event>>, tail: &SortedMap<Iid, Vec<Event>>) -> (r: SortedMap<
    Iid,
    Vec<Event>,
>)
    requires
        tail.wf(),
        forall|i: int| 0 <= i < blocks@.len() ==> events_wf((#[trigger] blocks@[i])@),
        forall|i: Iid| #[trigger] tail@.dom().contains(i) ==> events_wf(tail@[i]@),
    ensures
        r.wf(),
        is_merge(r@, |i: Iid| sourced(block_views(blocks@), tail@, i)),
{
    let ghost all = block_views(blocks@);
    let mut r: SortedMap<Iid, Vec<Event>> = SortedMap::new();
    let mut i: usize = 0;
    while i < blocks.len()
        invariant
            i <= blocks.len(),
            all == block_views(blocks@),
            forall|i: int| 0 <= i < blocks@.len() ==> events_wf((#[trigger] blocks@[i])@),
            r.wf(),
            is_merge(r@, |x: Iid| merged_upto(all, x, i as int)),
        decreases blocks.len() - i,
    {
        let ghost of = |x: Iid| merged_upto(all, x, i as int);
        merge_block(&mut r, &blocks[i], Ghost(of));
        proof {
            let a = |x: Iid| of(x) + history(views(blocks@[i as int]@), x).reverse();
            let b = |x: Iid| merged_upto(all, x, i + 1);
            assert forall|x: Iid| #[trigger] a(x) == b(x) by {}
            assert(a =~= b);
        }
        i += 1;
    }
    let n = tail.len();
    let ghost keys = tail.keys();
    let mut k: usize = 0;
    proof {
        lemma_sorted_domain(*tail);
        let now = |x: Iid|
            merged_upto(all, x, all.len() as int) + (if keys.take(0).contains(x) {
                tail_of(tail@, x)
            } else {
                Seq::empty()
            });
        let was = |x: Iid| merged_upto(all, x, i as int);
        assert forall|x: Iid| #[trigger] now(x) == was(x) by {
            assert(now(x) =~= was(x));
        }
        assert(now =~= was);
    }
    while k < n
        invariant
            k <= n,
            n == keys.len(),
            keys == tail.keys(),
            tail.wf(),
            all == block_views(blocks@),
            forall|i: Iid| #[trigger] tail@.dom().contains(i) ==> events_wf(tail@[i]@),
            r.wf(),
            is_merge(
                r@,
                |x: Iid|
                    merged_upto(all, x, all.len() as int) + (if keys.take(k as int).contains(x) {
                        tail_of(tail@, x)
                    } else {
                        Seq::empty()
                    }),
            ),
        decreases n - k,
    {
        let iid = *tail.key_at(k);
        let list = tail.value_at(k);
        let ghost now = |x: Iid|
            merged_upto(all, x, all.len() as int) + (if keys.take(k as int).contains(x) {
                tail_of(tail@, x)
            } else {
                Seq::empty()
            });
        let ghost next = |x: Iid|
            merged_upto(all, x, all.len() as int) + (if keys.take(k + 1).contains(x) {
                tail_of(tail@, x)
            } else {
                Seq::empty()
            });
        let ghost map0 = r@;
        proof {
            lemma_sorted_domain(*tail);
            assert(keys[k as int] == iid);
            assert(tail@.dom().contains(iid) && tail@[iid] == *list);
            assert(!keys.take(k as int).contains(iid)) by {
                if keys.take(k as int).contains(iid) {
                    let j = keys.take(k as int).index_of(iid);
                    assert(keys[j] == iid);
                    lemma_ascending_index::<Iid>(keys, j);
                    lemma_ascending_index::<Iid>(keys, k as int);
                }
            }
            assert(keys.take(k + 1) =~= keys.take(k as int).push(iid));
            assert forall|x: Iid| #[trigger] next(x) == (if x == iid {
                now(x) + views(list@)
            } else {
                now(x)
            }) by {
                let a = keys.take(k as int);
                let b = keys.take(k + 1);
                if a.contains(x) {
                    assert(b[a.index_of(x)] == x);
                }
                assert(b[k as int] == iid);
                if b.contains(x) && x != iid {
                    assert(a[b.index_of(x)] == x);
                }
                assert(next(x) =~= (if x == iid {
                    now(x) + views(list@)
                } else {
                    now(x)
                }));
            }
        }
        let mut joined = match r.remove(&iid) {
            Some(found) => found,
            None => Vec::new(),
        };
        let ghost first = joined@;
        proof {
            if map0.dom().contains(iid) {
                assert(views(first) == now(iid));
            } else {
                assert(now(iid).len() == 0);
                assert(views(first) =~= now(iid));
            }
        }
        append_events(&mut joined, list);
        let ghost whole = joined;
        if joined.len() > 0 {
            r.insert(iid, joined);
        }
        proof {
            assert(views(whole@) == now(iid) + views(list@));
            if whole@.len() > 0 {
                assert(r@ =~= map0.insert(iid, whole));
            } else {
                assert(r@ =~= map0.remove(iid));
            }
            assert forall|x: Iid| #[trigger] r@.dom().contains(x) <==> next(x).len() > 0 by {
                assert(next(x) == (if x == iid {
                    now(x) + views(list@)
                } else {
                    now(x)
                }));
                assert(map0.dom().contains(x) <==> now(x).len() > 0);
            }
            assert forall|x: Iid| #[trigger] r@.dom().contains(x) implies events_wf(r@[x]@)
                && views(r@[x]@) == next(x) by {
                assert(next(x) == (if x == iid {
                    now(x) + views(list@)
                } else {
                    now(x)
                }));
                if x != iid {
                    assert(map0.dom().contains(x));
                }
            }
            assert(is_merge(r@, next));
        }
        k += 1;
    }
    proof {
        lemma_sorted_domain(*tail);
        let a = |x: Iid|
            merged_upto(all, x, all.len() as int) + (if keys.take(n as int).contains(x) {
                tail_of(tail@, x)
            } else {
                Seq::empty()
            });
        let b = |x: Iid| sourced(all, tail@, x);
        assert(keys.take(n as int) =~= keys);
        assert forall|x: Iid| #[trigger] a(x) == b(x) by {
            assert(keys.to_set().contains(x) <==> keys.contains(x));
        }
        assert(a =~= b);
    }
    r
}

fn append_events(list: &mut Vec<Event>, more: &Vec<Event>)
    requires
        events_wf(old(list)@),
        events_wf(more@),
    ensures
        events_wf(final(list)@),
        views(final(list)@) == views(old(list)@) + views(more@),
{
    let ghost start = views(list@);
    let mut i: usize = 0;
    assert(start + views(more@).take(0) =~= start);
    while i < more.len()
        invariant
            i <= more.len(),
            events_wf(list@),
            events_wf(more@),
            views(list@) == start + views(more@).take(i as int),
        decreases more.len() - i,
    {
        let event = more[i].clone_event();
        proof {
            lemma_views_push(list@, event);
            assert(views(more@).take(i + 1) =~= views(more@).take(i as int).push(event@));
        }
        list.push(event);
        assert(views(list@) =~= start + views(more@).take(i + 1));
        i += 1;
    }
    assert(views(more@).take(i as int) =~= views(more@));
}

/// The payloads of the versions that put something.
pub open spec fn put_payloads(versions: Seq<EventView>) -> Seq<PayloadView>
    decreases versions.len(),
{
    if versions.len() == 0 {
        Seq::empty()
    } else {
        let before = put_payloads(versions.drop_last());
        match versions.last().op {
            OpView::Put { labels, doc } => before.push(PayloadView { labels, doc }),
            _ => before,
        }
    }
}

/// An edge, from its events and from those versions of it that are visible. Its
/// first event names its ends.
pub fn edge_versions(events: &Vec<Event>, visible: &Vec<Event>) -> (r: EdgeVersions)
    requires
        events@.len() > 0,
        events_wf(visible@),
    ensures
        r.wf(),
        r.src == events@[0].src,
        r.dst == events@[0].dst,
        views(r.puts@) == put_payloads(views(visible@)),
{
    let ghost all = views(visible@);
    let mut puts: Vec<Payload> = Vec::new();
    let mut i: usize = 0;
    assert(all.take(0) =~= Seq::<EventView>::empty());
    assert(views(puts@) =~= Seq::<PayloadView>::empty());
    while i < visible.len()
        invariant
            i <= visible.len(),
            all == views(visible@),
            events_wf(visible@),
            forall|k: int| 0 <= k < puts@.len() ==> (#[trigger] puts@[k]).doc.wf(),
            views(puts@) == put_payloads(all.take(i as int)),
        decreases visible.len() - i,
    {
        proof {
            assert(all.take(i + 1).drop_last() =~= all.take(i as int));
            assert(all.take(i + 1).last() == visible@[i as int]@);
            assert(visible@[i as int].wf());
        }
        match &visible[i].op {
            Op::Put { labels, doc } => {
                let payload = Payload { labels: clone_texts(labels), doc: doc.clone_doc() };
                proof {
                    lemma_views_push(puts@, payload);
                }
                puts.push(payload);
            },
            _ => {},
        }
        i += 1;
    }
    assert(all.take(i as int) =~= all);
    EdgeVersions { src: events[0].src, dst: events[0].dst, puts }
}

/// A page with its rows.
pub type PageRows = (PageMeta, Seq<EventView>);

/// The pages of a lookup of edges: all, or those that may hold edges at a node.
pub open spec fn page_selection(anchor: Option<Iid>) -> IidSel {
    match anchor {
        None => IidSel::All,
        Some(node) => IidSel::Point(node),
    }
}

/// The rows that a lookup of edges takes out of the pages of a block: of the
/// pages that may hold some, the rows at the node.
pub open spec fn rows_read(pages: Seq<PageRows>, dir: AdjDirection, anchor: Option<Iid>) -> Seq<
    EventView,
>
    decreases pages.len(),
{
    if pages.len() == 0 {
        Seq::empty()
    } else {
        let before = rows_read(pages.drop_last(), dir, anchor);
        if page_selection(anchor).overlaps(pages.last().0) {
            before + pages.last().1.filter(
                |e: EventView| anchor is None || near_end(e, dir) == anchor,
            )
        } else {
            before
        }
    }
}

/// The rows that a lookup of edges takes out of each block.
pub open spec fn blocks_read(
    blocks: Seq<Seq<PageRows>>,
    dir: AdjDirection,
    anchor: Option<Iid>,
) -> Seq<Seq<EventView>> {
    blocks.map_values(|pages: Seq<PageRows>| rows_read(pages, dir, anchor))
}

/// Every event of an edge names the ends that the edge has.
pub open spec fn name_ends(
    events: Seq<EventView>,
    ends: spec_fn(Iid) -> (Option<Iid>, Option<Iid>),
) -> bool {
    forall|i: int|
        0 <= i < events.len() ==> ((#[trigger] events[i]).src, events[i].dst) == ends(
            events[i].iid,
        )
}

/// The pages name the range of the ends by which they are sorted.
pub open spec fn pages_ok(
    pages: Seq<PageRows>,
    dir: AdjDirection,
    ends: spec_fn(Iid) -> (Option<Iid>, Option<Iid>),
) -> bool {
    forall|p: int|
        0 <= p < pages.len() ==> name_ends((#[trigger] pages[p]).1, ends) && forall|i: int|
            0 <= i < pages[p].1.len() ==> (near_end(#[trigger] pages[p].1[i], dir) matches Some(n)
                ==> pages[p].0.min_iid.bits <= n.bits <= pages[p].0.max_iid.bits)
}

/// The edges, each from all its events. `visible` is what is visible of an
/// entity with these events.
pub open spec fn are_versions(
    merged: Map<Iid, EdgeVersions>,
    of: spec_fn(Iid) -> Seq<EventView>,
    visible: spec_fn(Seq<EventView>) -> Seq<EventView>,
) -> bool {
    &&& forall|i: Iid| #[trigger] merged.dom().contains(i) <==> of(i).len() > 0
    &&& forall|i: Iid| #[trigger]
        merged.dom().contains(i) ==> merged[i].src == of(i)[0].src && merged[i].dst == of(
            i,
        )[0].dst && views(merged[i].puts@) == put_payloads(visible(of(i)))
}

/// The end from which an edge is followed.
spec fn near_of(
    ends: spec_fn(Iid) -> (Option<Iid>, Option<Iid>),
    dir: AdjDirection,
    iid: Iid,
) -> Option<Iid> {
    match dir {
        AdjDirection::Out => ends(iid).0,
        AdjDirection::In => ends(iid).1,
    }
}

/// What a filter that takes all or nothing of an entity leaves of it.
proof fn lemma_filtered_history(
    rows: Seq<EventView>,
    pred: spec_fn(EventView) -> bool,
    iid: Iid,
    keep: bool,
)
    requires
        forall|i: int|
            0 <= i < rows.len() && (#[trigger] rows[i]).iid == iid ==> pred(rows[i]) == keep,
    ensures
        history(rows.filter(pred), iid) == (if keep {
            history(rows, iid)
        } else {
            Seq::empty()
        }),
    decreases rows.len(),
{
    reveal(Seq::filter);
    if rows.len() == 0 {
        lemma_history_empty(iid);
    } else {
        let front = rows.drop_last();
        let e = rows.last();
        assert(e == rows[rows.len() - 1]);
        assert forall|i: int| 0 <= i < front.len() && (#[trigger] front[i]).iid
            == iid implies pred(front[i]) == keep by {
            assert(front[i] == rows[i]);
        }
        lemma_filtered_history(front, pred, iid, keep);
        lemma_history_push(front, e, iid);
        assert(rows =~= front.push(e));
        if pred(e) {
            lemma_history_push(front.filter(pred), e, iid);
        }
    }
}

proof fn lemma_history_add(a: Seq<EventView>, b: Seq<EventView>, iid: Iid)
    ensures
        history(a + b, iid) == history(a, iid) + history(b, iid),
{
    Seq::filter_distributes_over_add(a, b, |e: EventView| e.iid == iid);
}

/// What a lookup from a node takes of an edge out of a block: all that a lookup
/// of all edges takes, or nothing.
proof fn lemma_rows_read(
    pages: Seq<PageRows>,
    dir: AdjDirection,
    node: Iid,
    ends: spec_fn(Iid) -> (Option<Iid>, Option<Iid>),
    iid: Iid,
)
    requires
        pages_ok(pages, dir, ends),
    ensures
        history(rows_read(pages, dir, Some(node)), iid) == (if near_of(ends, dir, iid) == Some(
            node,
        ) {
            history(rows_read(pages, dir, None), iid)
        } else {
            Seq::empty()
        }),
    decreases pages.len(),
{
    lemma_history_empty(iid);
    if pages.len() > 0 {
        let front = pages.drop_last();
        let page = pages.last();
        let rows = page.1;
        assert(page == pages[pages.len() - 1]);
        assert(pages_ok(front, dir, ends)) by {
            assert forall|p: int| 0 <= p < front.len() implies name_ends(
                (#[trigger] front[p]).1,
                ends,
            ) && forall|i: int|
                0 <= i < front[p].1.len() ==> (near_end(#[trigger] front[p].1[i], dir) matches Some(
                    n,
                ) ==> front[p].0.min_iid.bits <= n.bits <= front[p].0.max_iid.bits) by {
                assert(front[p] == pages[p]);
            }
        }
        lemma_rows_read(front, dir, node, ends, iid);
        let near = near_of(ends, dir, iid) == Some(node);
        let none: Option<Iid> = None;
        let some: Option<Iid> = Some(node);
        let every = |e: EventView| none is None || near_end(e, dir) == none;
        let there = |e: EventView| some is None || near_end(e, dir) == some;
        assert forall|i: int| 0 <= i < rows.len() && (#[trigger] rows[i]).iid == iid implies there(
            rows[i],
        ) == near by {
            assert((rows[i].src, rows[i].dst) == ends(rows[i].iid));
        }
        lemma_filtered_history(rows, every, iid, true);
        lemma_filtered_history(rows, there, iid, near);
        lemma_history_add(rows_read(front, dir, none), rows.filter(every), iid);
        lemma_history_add(rows_read(front, dir, some), rows.filter(there), iid);
        assert(page_selection(none).overlaps(page.0));
        if !page_selection(some).overlaps(page.0) && near {
            assert(history(rows, iid).len() == 0) by {
                lemma_history_some(rows, iid);
                if history(rows, iid).len() > 0 {
                    let i = choose|i: int| 0 <= i < rows.len() && (#[trigger] rows[i]).iid == iid;
                    assert((rows[i].src, rows[i].dst) == ends(rows[i].iid));
                    assert(near_end(pages[pages.len() - 1].1[i], dir) == Some(node));
                }
            }
            assert(history(rows_read(front, dir, none), iid) + history(rows, iid) =~= history(
                rows_read(front, dir, none),
                iid,
            ));
        }
        if !near {
            assert(Seq::<EventView>::empty() + Seq::<EventView>::empty() =~= Seq::<
                EventView,
            >::empty());
        }
    }
}

proof fn lemma_blocks_read(
    blocks: Seq<Seq<PageRows>>,
    dir: AdjDirection,
    node: Iid,
    ends: spec_fn(Iid) -> (Option<Iid>, Option<Iid>),
    iid: Iid,
    n: int,
)
    requires
        0 <= n <= blocks.len(),
        forall|b: int| 0 <= b < blocks.len() ==> pages_ok(#[trigger] blocks[b], dir, ends),
    ensures
        merged_upto(blocks_read(blocks, dir, Some(node)), iid, n) == (if near_of(ends, dir, iid)
            == Some(node) {
            merged_upto(blocks_read(blocks, dir, None), iid, n)
        } else {
            Seq::empty()
        }),
    decreases n,
{
    if n > 0 {
        lemma_blocks_read(blocks, dir, node, ends, iid, n - 1);
        lemma_rows_read(blocks[n - 1], dir, node, ends, iid);
        assert(blocks_read(blocks, dir, Some(node))[n - 1] == rows_read(
            blocks[n - 1],
            dir,
            Some(node),
        ));
        assert(blocks_read(blocks, dir, None)[n - 1] == rows_read(blocks[n - 1], dir, None));
        if near_of(ends, dir, iid) != Some(node) {
            assert(Seq::<EventView>::empty() + Seq::<EventView>::empty().reverse() =~= Seq::<
                EventView,
            >::empty());
        }
    }
}

/// All events of a list are of one edge and name its ends.
spec fn all_of(
    events: Seq<EventView>,
    ends: spec_fn(Iid) -> (Option<Iid>, Option<Iid>),
    iid: Iid,
) -> bool {
    forall|i: int|
        0 <= i < events.len() ==> (#[trigger] events[i]).iid == iid && (events[i].src, events[i].dst)
            == ends(iid)
}

proof fn lemma_history_all(
    rows: Seq<EventView>,
    ends: spec_fn(Iid) -> (Option<Iid>, Option<Iid>),
    iid: Iid,
)
    requires
        name_ends(rows, ends),
    ensures
        all_of(history(rows, iid), ends, iid),
{
    let pred = |e: EventView| e.iid == iid;
    assert forall|i: int| 0 <= i < history(rows, iid).len() implies (#[trigger] history(
        rows,
        iid,
    )[i]).iid == iid && (history(rows, iid)[i].src, history(rows, iid)[i].dst) == ends(iid) by {
        let e = history(rows, iid)[i];
        rows.lemma_filter_contains_rev(pred, e);
        rows.lemma_filter_pred(pred, i);
        assert(pred(e));
        let k = rows.index_of(e);
        assert((rows[k].src, rows[k].dst) == ends(rows[k].iid));
    }
}

proof fn lemma_read_names(
    pages: Seq<PageRows>,
    dir: AdjDirection,
    ends: spec_fn(Iid) -> (Option<Iid>, Option<Iid>),
)
    requires
        pages_ok(pages, dir, ends),
    ensures
        name_ends(rows_read(pages, dir, None), ends),
    decreases pages.len(),
{
    if pages.len() > 0 {
        let front = pages.drop_last();
        let page = pages.last();
        let none: Option<Iid> = None;
        let every = |e: EventView| none is None || near_end(e, dir) == none;
        assert(page == pages[pages.len() - 1]);
        assert(pages_ok(front, dir, ends)) by {
            assert forall|p: int| 0 <= p < front.len() implies name_ends(
                (#[trigger] front[p]).1,
                ends,
            ) && forall|i: int|
                0 <= i < front[p].1.len() ==> (near_end(#[trigger] front[p].1[i], dir) matches Some(
                    n,
                ) ==> front[p].0.min_iid.bits <= n.bits <= front[p].0.max_iid.bits) by {
                assert(front[p] == pages[p]);
            }
        }
        lemma_read_names(front, dir, ends);
        let before = rows_read(front, dir, none);
        let added = page.1.filter(every);
        assert forall|i: int| 0 <= i < (before + added).len() implies ((
        #[trigger] (before + added)[i]).src, (before + added)[i].dst) == ends(
            (before + added)[i].iid,
        ) by {
            if i < before.len() {
                assert((before + added)[i] == before[i]);
            } else {
                let e = added[i - before.len()];
                assert((before + added)[i] == e);
                page.1.lemma_filter_contains_rev(every, e);
                let k = page.1.index_of(e);
                assert((page.1[k].src, page.1[k].dst) == ends(page.1[k].iid));
            }
        }
    }
}

proof fn lemma_merged_all(
    blocks: Seq<Seq<PageRows>>,
    dir: AdjDirection,
    ends: spec_fn(Iid) -> (Option<Iid>, Option<Iid>),
    iid: Iid,
    n: int,
)
    requires
        0 <= n <= blocks.len(),
        forall|b: int| 0 <= b < blocks.len() ==> pages_ok(#[trigger] blocks[b], dir, ends),
    ensures
        all_of(merged_upto(blocks_read(blocks, dir, None), iid, n), ends, iid),
    decreases n,
{
    if n > 0 {
        let rows = rows_read(blocks[n - 1], dir, None);
        let read = blocks_read(blocks, dir, None);
        assert(read[n - 1] == rows);
        lemma_merged_all(blocks, dir, ends, iid, n - 1);
        lemma_read_names(blocks[n - 1], dir, ends);
        lemma_history_all(rows, ends, iid);
        let before = merged_upto(read, iid, n - 1);
        let own = history(rows, iid);
        assert forall|i: int| 0 <= i < (before + own.reverse()).len() implies (
        #[trigger] (before + own.reverse())[i]).iid == iid && (
        (before + own.reverse())[i].src, (before + own.reverse())[i].dst) == ends(iid) by {
            if i < before.len() {
                assert((before + own.reverse())[i] == before[i]);
            } else {
                let k = own.len() - 1 - (i - before.len());
                assert((before + own.reverse())[i] == own[k]);
            }
        }
    }
}

/// What the unflushed events of a lookup from a node hold of an edge.
proof fn lemma_tail_read(
    tail: Seq<EventView>,
    overlay: Seq<EventView>,
    every: Map<Iid, Vec<Event>>,
    there: Map<Iid, Vec<Event>>,
    sel: IidSel,
    dir: AdjDirection,
    node: Iid,
    ends: spec_fn(Iid) -> (Option<Iid>, Option<Iid>),
    iid: Iid,
)
    requires
        name_ends(tail + overlay, ends),
        is_edge_selection(sel, tail, overlay, dir, Some(node)),
        is_grouping(every, tail + overlay, IidSel::All),
        is_grouping(there, tail + overlay, sel),
    ensures
        all_of(tail_of(every, iid), ends, iid),
        tail_of(there, iid) == (if near_of(ends, dir, iid) == Some(node) {
            tail_of(every, iid)
        } else {
            Seq::empty()
        }),
{
    let all = tail + overlay;
    lemma_history_all(all, ends, iid);
    lemma_history_some(all, iid);
    assert(tail_of(every, iid) =~= history(all, iid));
    let near = near_of(ends, dir, iid) == Some(node);
    if sel.picks(iid) {
        if exists|i: int|
            0 <= i < tail.len() && (#[trigger] tail[i]).iid == iid && near_end(tail[i], dir)
                == Some(node) {
            let i = choose|i: int|
                0 <= i < tail.len() && (#[trigger] tail[i]).iid == iid && near_end(tail[i], dir)
                    == Some(node);
            assert(all[i] == tail[i]);
        } else {
            let i = choose|i: int|
                0 <= i < overlay.len() && (#[trigger] overlay[i]).iid == iid && near_end(
                    overlay[i],
                    dir,
                ) == Some(node);
            assert(all[tail.len() + i] == overlay[i]);
        }
        assert(near);
    }
    if near && history(all, iid).len() > 0 {
        let i = choose|i: int| 0 <= i < all.len() && (#[trigger] all[i]).iid == iid;
        assert((all[i].src, all[i].dst) == ends(all[i].iid));
        assert(near_end(all[i], dir) == Some(node));
        if i < tail.len() {
            assert(tail[i] == all[i]);
        } else {
            assert(overlay[i - tail.len()] == all[i]);
        }
        assert(sel.picks(iid));
    }
}

/// A lookup of the edges at a node, which reads only the pages, the rows and
/// the unflushed edges at that node, gives what a lookup of all edges gives of
/// it, in the same order. Every edge keeps its ends, and a page's range covers
/// the ends by which the page is sorted.
pub proof fn law_anchored_lookup_is_filtered(
    blocks: Seq<Seq<PageRows>>,
    tail: Seq<EventView>,
    overlay: Seq<EventView>,
    every: Map<Iid, Vec<Event>>,
    there: Map<Iid, Vec<Event>>,
    sel: IidSel,
    dir: AdjDirection,
    node: Iid,
    ends: spec_fn(Iid) -> (Option<Iid>, Option<Iid>),
    visible: spec_fn(Seq<EventView>) -> Seq<EventView>,
    all: Map<Iid, EdgeVersions>,
    at: Map<Iid, EdgeVersions>,
    filter: EdgeFilter,
)
    requires
        forall|b: int| 0 <= b < blocks.len() ==> pages_ok(#[trigger] blocks[b], dir, ends),
        name_ends(tail + overlay, ends),
        is_edge_selection(sel, tail, overlay, dir, Some(node)),
        is_grouping(every, tail + overlay, IidSel::All),
        is_grouping(there, tail + overlay, sel),
        are_versions(
            all,
            |i: Iid| sourced(blocks_read(blocks, dir, None), every, i),
            visible,
        ),
        are_versions(
            at,
            |i: Iid| sourced(blocks_read(blocks, dir, Some(node)), there, i),
            visible,
        ),
        all.dom().finite(),
        ends_known(all, filter),
    ensures
        adjacency_spec(at, filter, dir, None) matches Ok(found) && adjacency_spec(
            all,
            filter,
            dir,
            None,
        ) matches Ok(whole) && found == whole.filter(|e: AdjEntry| e.node == node),
{
    let of = |i: Iid| sourced(blocks_read(blocks, dir, None), every, i);
    let of_at = |i: Iid| sourced(blocks_read(blocks, dir, Some(node)), there, i);
    let part = at_node(all, dir, node);
    let n = blocks.len() as int;
    assert forall|i: Iid|
        #![trigger at.dom().contains(i)]
        (at.dom().contains(i) <==> part.dom().contains(i)) && (at.dom().contains(i)
            ==> at[i].src == part[i].src && at[i].dst == part[i].dst && views(at[i].puts@)
            == views(part[i].puts@)) by {
        lemma_blocks_read(blocks, dir, node, ends, i, n);
        lemma_merged_all(blocks, dir, ends, i, n);
        lemma_tail_read(tail, overlay, every, there, sel, dir, node, ends, i);
        let near = near_of(ends, dir, i) == Some(node);
        let first = merged_upto(blocks_read(blocks, dir, None), i, n);
        assert(of(i) == first + tail_of(every, i));
        if near {
            assert(of_at(i) == of(i));
        } else {
            assert(of_at(i) =~= Seq::<EventView>::empty());
        }
        assert(at.dom().contains(i) <==> of_at(i).len() > 0);
        assert(all.dom().contains(i) <==> of(i).len() > 0);
        if all.dom().contains(i) {
            assert((of(i)[0].src, of(i)[0].dst) == ends(i)) by {
                if first.len() > 0 {
                    assert(of(i)[0] == first[0]);
                } else {
                    assert(of(i)[0] == tail_of(every, i)[0]);
                }
            }
            assert(part.dom().contains(i) <==> near);
        }
    }
    assert(at.dom() =~= part.dom());
    assert(part.dom().subset_of(all.dom()));
    vstd::set_lib::lemma_set_subset_finite(all.dom(), part.dom());
    assert forall|i: Iid| #[trigger] at.dom().contains(i) implies at[i].matches(filter)
        == part[i].matches(filter) by {
        lemma_same_matches(at[i], part[i], filter);
    }
    assert(followable(at, filter, dir) =~= followable(part, filter, dir)) by {
        assert forall|e: AdjEntry| #[trigger] followable(at, filter, dir).contains(e)
            <==> followable(part, filter, dir).contains(e) by {
            assert(at.dom().contains(e.edge) <==> part.dom().contains(e.edge));
        }
    }
    assert(ends_known(part, filter)) by {
        assert forall|i: Iid| #[trigger] part.dom().contains(i) && part[i].matches(
            filter,
        ) implies part[i].src is Some && part[i].dst is Some by {
            assert(all.dom().contains(i));
        }
    }
    assert(ends_known(at, filter)) by {
        assert forall|i: Iid| #[trigger] at.dom().contains(i) && at[i].matches(
            filter,
        ) implies at[i].src is Some && at[i].dst is Some by {
            assert(part.dom().contains(i));
        }
    }
    law_adjacency_is_complete(at, filter, dir);
    law_adjacency_is_complete(part, filter, dir);
    law_anchored_is_filtered(all, filter, dir, node);
}

proof fn lemma_same_matches(a: EdgeVersions, b: EdgeVersions, filter: EdgeFilter)
    requires
        views(a.puts@) == views(b.puts@),
    ensures
        a.matches(filter) == b.matches(filter),
{
    assert(a.puts@.len() == views(a.puts@).len());
    assert(b.puts@.len() == views(b.puts@).len());
    if a.matches(filter) {
        let i = choose|i: int| 0 <= i < a.puts@.len() && filter.accepts((#[trigger] a.puts@[i])@);
        assert(views(a.puts@)[i] == a.puts@[i]@);
        assert(views(b.puts@)[i] == b.puts@[i]@);
        assert(filter.accepts(b.puts@[i]@));
    }
    if b.matches(filter) {
        let i = choose|i: int| 0 <= i < b.puts@.len() && filter.accepts((#[trigger] b.puts@[i])@);
        assert(views(a.puts@)[i] == a.puts@[i]@);
        assert(views(b.puts@)[i] == b.puts@[i]@);
        assert(filter.accepts(a.puts@[i]@));
    }
}

} // verus!
