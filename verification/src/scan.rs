//! What a scan reads: which entities, which pages of which blocks, and which
//! of the edges it finds can be followed.

use crate::error::{EngineError, ErrorView, IndexError, IndexErrorView, PlanError, PlanErrorView};
use crate::event::{events_wf, Event, EventView};
use crate::flush::unflushed_events;
use crate::fold::{
    lemma_try_fold_all, lemma_try_fold_fails, lemma_try_fold_step, try_fold,
};
use crate::sorted::{
    ascending, lemma_map_keys_sorted, lemma_set_items, lemma_set_items_sorted, lemma_sorted_domain,
    lemma_sorted_exists, lemma_sorted_seq, sorted_seq, OrderedKey, SortedMap, SortedSet,
};
use crate::state::{GraphsState, LiveTable, PageMeta, PersistedTrie, TableCore, TableKind};
use crate::text::{concat4, contains_text, decimal, decimal_text, views};
use crate::types::{Iid, Value};
use crate::visible::{AdjDirection, AdjEntry, Payload, PayloadView};
use vstd::prelude::*;

verus! {

/// Which entities a scan touches.
pub enum IidSel {
    All,
    Point(Iid),
    Members(SortedSet<Iid>),
}

impl IidSel {
    pub open spec fn wf(&self) -> bool {
        self matches IidSel::Members(s) ==> s.wf()
    }

    pub open spec fn picks(&self, iid: Iid) -> bool {
        match self {
            IidSel::All => true,
            IidSel::Point(p) => iid == *p,
            IidSel::Members(s) => s@.contains(iid),
        }
    }

    pub fn admits(&self, iid: &Iid) -> (r: bool)
        requires
            self.wf(),
        ensures
            r == self.picks(*iid),
    {
        match self {
            IidSel::All => true,
            IidSel::Point(p) => iid.bits == p.bits,
            IidSel::Members(s) => s.contains(iid),
        }
    }

    /// Some entity of the selection lies in the page's range.
    pub open spec fn overlaps(&self, page: PageMeta) -> bool {
        match self {
            IidSel::All => true,
            IidSel::Point(p) => page.min_iid.bits <= p.bits <= page.max_iid.bits,
            IidSel::Members(s) => exists|i: Iid| #[trigger]
                s@.contains(i) && page.min_iid.bits <= i.bits <= page.max_iid.bits,
        }
    }

    /// Whether a page may hold something of the selection. `selected` is the
    /// page index's own verdict, on the time bounds and, for a single entity,
    /// on that entity. A page whose range is inverted holds nothing of a
    /// single entity or of a set.
    pub fn selects_page(&self, page: &PageMeta, selected: bool) -> (r: bool)
        requires
            self.wf(),
        ensures
            r == (selected && self.overlaps(*page)),
    {
        if !selected {
            return false;
        }
        match self {
            IidSel::All => true,
            IidSel::Point(p) => page.min_iid.bits <= p.bits && p.bits <= page.max_iid.bits,
            IidSel::Members(s) => {
                let n = s.len();
                let mut i: usize = 0;
                proof {
                    lemma_set_items(*s);
                }
                while i < n
                    invariant
                        i <= n,
                        n == s.items().len(),
                        s.items().to_set() == s@,
                        *self == IidSel::Members(*s),
                        selected,
                        forall|k: int|
                            0 <= k < i ==> !(page.min_iid.bits <= (#[trigger] s.items()[k]).bits
                                <= page.max_iid.bits),
                    decreases n - i,
                {
                    let iid = s.item_at(i);
                    if page.min_iid.bits <= iid.bits && iid.bits <= page.max_iid.bits {
                        assert(s@.contains(*iid)) by {
                            assert(s.items().to_set().contains(s.items()[i as int]));
                        }
                        assert(self->Members_0@.contains(*iid));
                        return true;
                    }
                    i += 1;
                }
                assert forall|x: Iid| #[trigger] s@.contains(x) implies !(page.min_iid.bits
                    <= x.bits <= page.max_iid.bits) by {
                    assert(s.items().to_set().contains(x));
                    let k = s.items().index_of(x);
                    assert(s.items()[k] == x);
                }
                false
            },
        }
    }

    /// Of the events of a page those of the selection, in the same order.
    pub fn admit_events(&self, events: Vec<Event>) -> (r: Vec<Event>)
        requires
            self.wf(),
        ensures
            r@ == events@.filter(|e: Event| self.picks(e.iid)),
    {
        let ghost all = events@;
        let ghost pred = |e: Event| self.picks(e.iid);
        let mut r: Vec<Event> = Vec::new();
        proof {
            reveal(Seq::filter);
            assert(all.subrange(0, 0) =~= Seq::<Event>::empty());
        }
        for event in it: events
            invariant
                it.seq() == all,
                self.wf(),
                pred == (|e: Event| self.picks(e.iid)),
                r@ == all.subrange(0, it.index() as int).filter(pred),
        {
            let ghost i = it.index() as int;
            proof {
                reveal(Seq::filter);
                assert(all.subrange(0, i + 1).drop_last() =~= all.subrange(0, i));
                assert(all[i] == event);
            }
            if self.admits(&event.iid) {
                r.push(event);
            }
        }
        assert(all.subrange(0, all.len() as int) =~= all);
        r
    }
}

/// A place is among the chosen ones.
pub open spec fn chooses(chosen: Seq<usize>, p: int) -> bool {
    exists|k: int| 0 <= k < chosen.len() && #[trigger] chosen[k] == p
}

/// A page is chosen exactly where it may hold something of the selection.
pub open spec fn rightly_chosen(
    chosen: Seq<usize>,
    pages: Seq<PageMeta>,
    sel: IidSel,
    selected: Seq<bool>,
    p: int,
) -> bool {
    chooses(chosen, p) <==> selected[p] && sel.overlaps(pages[p])
}

/// The pages of a block that a scan reads, by their places.
pub open spec fn is_page_choice(
    chosen: Seq<usize>,
    pages: Seq<PageMeta>,
    sel: IidSel,
    selected: Seq<bool>,
) -> bool {
    &&& forall|i: int, j: int|
        0 <= i < j < chosen.len() ==> (#[trigger] chosen[i]) < (#[trigger] chosen[j])
    &&& forall|i: int| 0 <= i < chosen.len() ==> (#[trigger] chosen[i]) < pages.len()
    &&& forall|p: int|
        0 <= p < pages.len() ==> #[trigger] rightly_chosen(chosen, pages, sel, selected, p)
}

/// The pages of a block that a scan reads, in the order of the block.
pub fn choose_pages(pages: &Vec<PageMeta>, sel: &IidSel, selected: &Vec<bool>) -> (r: Vec<usize>)
    requires
        sel.wf(),
        selected@.len() == pages@.len(),
    ensures
        is_page_choice(r@, pages@, *sel, selected@),
{
    let mut r: Vec<usize> = Vec::new();
    let mut i: usize = 0;
    while i < pages.len()
        invariant
            i <= pages.len(),
            sel.wf(),
            selected@.len() == pages@.len(),
            forall|a: int, b: int|
                0 <= a < b < r@.len() ==> (#[trigger] r@[a]) < (#[trigger] r@[b]),
            forall|a: int| 0 <= a < r@.len() ==> (#[trigger] r@[a]) < i,
            forall|p: int|
                0 <= p < i ==> #[trigger] rightly_chosen(r@, pages@, *sel, selected@, p),
        decreases pages.len() - i,
    {
        let ghost before = r@;
        let chosen = sel.selects_page(&pages[i], selected[i]);
        if chosen {
            r.push(i);
        }
        proof {
            assert forall|p: int| 0 <= p < i + 1 implies #[trigger] rightly_chosen(
                r@,
                pages@,
                *sel,
                selected@,
                p,
            ) by {
                if p < i {
                    assert(rightly_chosen(before, pages@, *sel, selected@, p));
                    if chooses(before, p) {
                        let k = choose|k: int| 0 <= k < before.len() && #[trigger] before[k] == p;
                        assert(r@[k] == p);
                    }
                    if chooses(r@, p) {
                        let k = choose|k: int| 0 <= k < r@.len() && #[trigger] r@[k] == p;
                        assert(before[k] == p);
                    }
                } else {
                    if chosen {
                        assert(r@[r@.len() - 1] == p);
                    } else if chooses(r@, p) {
                        let k = choose|k: int| 0 <= k < r@.len() && #[trigger] r@[k] == p;
                        assert(before[k] < i);
                    }
                }
            }
        }
        i += 1;
    }
    r
}

/// The events of one entity, in order.
pub open spec fn history(events: Seq<EventView>, iid: Iid) -> Seq<EventView> {
    events.filter(|e: EventView| e.iid == iid)
}

pub proof fn lemma_history_push(events: Seq<EventView>, e: EventView, iid: Iid)
    ensures
        history(events.push(e), iid) == (if e.iid == iid {
            history(events, iid).push(e)
        } else {
            history(events, iid)
        }),
{
    reveal(Seq::filter);
    assert(events.push(e).drop_last() =~= events);
}

pub proof fn lemma_history_empty(iid: Iid)
    ensures
        history(Seq::empty(), iid) == Seq::<EventView>::empty(),
{
    reveal(Seq::filter);
}

/// An entity has a history exactly where some event is its own.
pub proof fn lemma_history_some(events: Seq<EventView>, iid: Iid)
    ensures
        history(events, iid).len() > 0 <==> exists|i: int|
            0 <= i < events.len() && (#[trigger] events[i]).iid == iid,
    decreases events.len(),
{
    reveal(Seq::filter);
    if events.len() > 0 {
        let front = events.drop_last();
        lemma_history_some(front, iid);
        if exists|i: int| 0 <= i < events.len() && (#[trigger] events[i]).iid == iid {
            let i = choose|i: int| 0 <= i < events.len() && (#[trigger] events[i]).iid == iid;
            if i < front.len() {
                assert(front[i] == events[i]);
            }
        }
        if exists|i: int| 0 <= i < front.len() && (#[trigger] front[i]).iid == iid {
            let i = choose|i: int| 0 <= i < front.len() && (#[trigger] front[i]).iid == iid;
            assert(events[i] == front[i]);
        }
        if events.last().iid == iid {
            assert(events[events.len() - 1].iid == iid);
        }
    }
}

/// The selected entities of a list of events, each with its events in order.
pub open spec fn is_grouping(
    groups: Map<Iid, Vec<Event>>,
    events: Seq<EventView>,
    sel: IidSel,
) -> bool {
    &&& forall|i: Iid| #[trigger]
        groups.dom().contains(i) <==> sel.picks(i) && history(events, i).len() > 0
    &&& forall|i: Iid| #[trigger]
        groups.dom().contains(i) ==> events_wf(groups[i]@) && views(groups[i]@) == history(
            events,
            i,
        )
}

fn group_into(groups: &mut SortedMap<Iid, Vec<Event>>, events: &Vec<Event>, sel: &IidSel, Ghost(
    prior,
): Ghost<Seq<EventView>>)
    requires
        old(groups).wf(),
        sel.wf(),
        events_wf(events@),
        is_grouping(old(groups)@, prior, *sel),
    ensures
        final(groups).wf(),
        is_grouping(final(groups)@, prior + views(events@), *sel),
{
    let mut i: usize = 0;
    assert(prior + views(events@).subrange(0, 0) =~= prior);
    while i < events.len()
        invariant
            i <= events.len(),
            groups.wf(),
            sel.wf(),
            events_wf(events@),
            is_grouping(groups@, prior + views(events@).subrange(0, i as int), *sel),
        decreases events.len() - i,
    {
        let ghost so_far = prior + views(events@).subrange(0, i as int);
        let ghost before = groups@;
        let event = &events[i];
        let ghost e = event@;
        proof {
            assert(views(events@).subrange(0, i + 1) =~= views(events@).subrange(0, i as int).push(
                e,
            ));
            assert(prior + views(events@).subrange(0, i + 1) =~= so_far.push(e));
            assert forall|x: Iid| true implies #[trigger] history(so_far.push(e), x) == (if e.iid
                == x {
                history(so_far, x).push(e)
            } else {
                history(so_far, x)
            }) by {
                lemma_history_push(so_far, e, x);
            }
        }
        if sel.admits(&event.iid) {
            let mut list = match groups.remove(&event.iid) {
                Some(list) => list,
                None => Vec::new(),
            };
            let ghost list0 = list@;
            proof {
                if !before.dom().contains(e.iid) {
                    assert(history(so_far, e.iid) =~= Seq::<EventView>::empty());
                    assert(views(list0) =~= Seq::<EventView>::empty());
                }
                assert(views(list0) == history(so_far, e.iid));
            }
            list.push(event.clone_event());
            assert(views(list@) =~= views(list0).push(e));
            let ghost list1 = list;
            groups.insert(event.iid, list);
            proof {
                assert(groups@ =~= before.insert(e.iid, list1));
                assert forall|x: Iid| #[trigger] groups@.dom().contains(x) implies events_wf(
                    groups@[x]@,
                ) && views(groups@[x]@) == history(so_far.push(e), x) by {
                    if x != e.iid {
                        assert(before.dom().contains(x));
                    }
                }
                assert forall|x: Iid| #[trigger] groups@.dom().contains(x) <==> sel.picks(x)
                    && history(so_far.push(e), x).len() > 0 by {
                    if x != e.iid {
                        assert(groups@.dom().contains(x) == before.dom().contains(x));
                    }
                }
            }
        } else {
            proof {
                assert forall|x: Iid| #[trigger] groups@.dom().contains(x) <==> sel.picks(x)
                    && history(so_far.push(e), x).len() > 0 by {
                    assert(history(so_far.push(e), x) == (if e.iid == x {
                        history(so_far, x).push(e)
                    } else {
                        history(so_far, x)
                    }));
                }
                assert forall|x: Iid| #[trigger] groups@.dom().contains(x) implies events_wf(
                    groups@[x]@,
                ) && views(groups@[x]@) == history(so_far.push(e), x) by {
                    assert(before.dom().contains(x));
                }
            }
        }
        i += 1;
    }
    assert(views(events@).subrange(0, events@.len() as int) =~= views(events@));
}

/// The selected entities of a list of events, each with its events in order.
pub fn group_events(events: &Vec<Event>, sel: &IidSel) -> (r: SortedMap<Iid, Vec<Event>>)
    requires
        sel.wf(),
        events_wf(events@),
    ensures
        r.wf(),
        is_grouping(r@, views(events@), *sel),
{
    let mut groups: SortedMap<Iid, Vec<Event>> = SortedMap::new();
    let ghost none: Seq<EventView> = Seq::empty();
    proof {
        assert forall|i: Iid| #[trigger] groups@.dom().contains(i) <==> sel.picks(i) && history(
            none,
            i,
        ).len() > 0 by {
            lemma_history_empty(i);
        }
        assert(none + views(events@) =~= views(events@));
    }
    group_into(&mut groups, events, sel, Ghost(none));
    groups
}

/// All unflushed events of a table and then those of the statements before, in
/// the order of their time.
pub open spec fn tail_events(core: TableCore, overlay: Option<LiveTable>) -> Seq<EventView> {
    views(unflushed_events(core@)) + match overlay {
        Some(o) => views(o@),
        None => Seq::empty(),
    }
}

/// The selected entities of the unflushed part of a table. The effects of
/// earlier statements of the same program come last: they are the newest.
pub fn table_events(core: &TableCore, overlay: Option<&LiveTable>, sel: &IidSel) -> (r: SortedMap<
    Iid,
    Vec<Event>,
>)
    requires
        core.wf(),
        sel.wf(),
        overlay matches Some(o) ==> o.wf(),
    ensures
        r.wf(),
        is_grouping(
            r@,
            tail_events(
                *core,
                match overlay {
                    Some(o) => Some(*o),
                    None => None,
                },
            ),
            *sel,
        ),
{
    let mut groups: SortedMap<Iid, Vec<Event>> = SortedMap::new();
    let ghost mut prior: Seq<EventView> = Seq::empty();
    proof {
        assert forall|i: Iid| #[trigger] history(prior, i).len() == 0 by {
            lemma_history_empty(i);
        }
        assert(is_grouping(groups@, prior, *sel)) by {
            assert forall|i: Iid| #[trigger] groups@.dom().contains(i) <==> sel.picks(i)
                && history(prior, i).len() > 0 by {
                assert(history(prior, i).len() == 0);
            }
        }
    }
    match &core.sealed {
        Some(tail) => {
            group_into(&mut groups, &tail.events, sel, Ghost(prior));
            proof {
                assert(prior + views(tail@) =~= views(tail@));
                prior = views(tail@);
            }
        },
        None => {},
    }
    group_into(&mut groups, &core.live.events, sel, Ghost(prior));
    proof {
        prior = prior + views(core.live@);
        assert(prior =~= views(unflushed_events(core@)));
    }
    match overlay {
        Some(o) => {
            group_into(&mut groups, &o.events, sel, Ghost(prior));
        },
        None => {
            assert(prior + Seq::<EventView>::empty() =~= prior);
        },
    }
    groups
}

/// What a scan of one table reads: the unflushed events of the selected
/// entities, and of each block some pages.
pub struct ScanPlan {
    pub tail: SortedMap<Iid, Vec<Event>>,
    pub pages: Vec<Vec<usize>>,
}

/// The verdicts of the page index, one for each page of each block.
pub open spec fn verdicts_fit(tries: Seq<PersistedTrie>, selected: Seq<Vec<bool>>) -> bool {
    &&& selected.len() == tries.len()
    &&& forall|i: int|
        0 <= i < tries.len() ==> (#[trigger] selected[i])@.len() == tries[i].pages@.len()
}

/// The pages that a scan reads, block by block in the order of time.
pub open spec fn is_block_choice(
    chosen: Seq<Vec<usize>>,
    tries: Seq<PersistedTrie>,
    sel: IidSel,
    selected: Seq<Vec<bool>>,
) -> bool {
    &&& chosen.len() == tries.len()
    &&& forall|i: int|
        0 <= i < tries.len() ==> is_page_choice(
            (#[trigger] chosen[i])@,
            tries[i].pages@,
            sel,
            selected[i]@,
        )
}

fn choose_blocks(tries: &Vec<PersistedTrie>, sel: &IidSel, selected: &Vec<Vec<bool>>) -> (r: Vec<
    Vec<usize>,
>)
    requires
        sel.wf(),
        verdicts_fit(tries@, selected@),
    ensures
        is_block_choice(r@, tries@, *sel, selected@),
{
    let mut r: Vec<Vec<usize>> = Vec::new();
    let mut i: usize = 0;
    while i < tries.len()
        invariant
            i <= tries.len(),
            sel.wf(),
            verdicts_fit(tries@, selected@),
            r@.len() == i,
            forall|k: int|
                0 <= k < i ==> is_page_choice(
                    (#[trigger] r@[k])@,
                    tries@[k].pages@,
                    *sel,
                    selected@[k]@,
                ),
        decreases tries.len() - i,
    {
        assert(selected@[i as int]@.len() == tries@[i as int].pages@.len());
        r.push(choose_pages(&tries[i].pages, sel, &selected[i]));
        i += 1;
    }
    r
}

/// Plans the merged scan of a table of a graph: all of it is read off one
/// state.
pub fn merged_snapshot(
    state: &GraphsState,
    graph: &str,
    kind: TableKind,
    sel: &IidSel,
    selected: &Vec<Vec<bool>>,
    overlay: Option<&LiveTable>,
) -> (r: Result<ScanPlan, EngineError>)
    requires
        state.wf(),
        sel.wf(),
        overlay matches Some(o) ==> o.wf(),
        state@.graphs.dom().contains(graph@) ==> verdicts_fit(
            state@.graphs[graph@].table(kind).tries,
            selected@,
        ),
    ensures
        match r {
            Err(e) => !state@.graphs.dom().contains(graph@) && e@ == ErrorView::UnknownGraph(
                graph@,
            ),
            Ok(plan) => {
                let core = state@.graphs[graph@].table(kind);
                &&& state@.graphs.dom().contains(graph@)
                &&& plan.tail.wf()
                &&& is_grouping(
                    plan.tail@,
                    views(unflushed_events(core)) + match overlay {
                        Some(o) => views(o@),
                        None => Seq::empty(),
                    },
                    *sel,
                )
                &&& is_block_choice(plan.pages@, core.tries, *sel, selected@)
            },
        },
{
    match state.graph(graph) {
        None => Err(EngineError::UnknownGraph(graph.to_owned())),
        Some(table) => {
            let core = table.table(kind);
            let tail = table_events(core, overlay, sel);
            let pages = choose_blocks(&core.tries, sel, selected);
            Ok(ScanPlan { tail, pages })
        },
    }
}

/// The end of an edge from which it is followed.
pub open spec fn near_end(e: EventView, dir: AdjDirection) -> Option<Iid> {
    match dir {
        AdjDirection::Out => e.src,
        AdjDirection::In => e.dst,
    }
}

/// The edges that some event of a list puts at a node.
pub open spec fn edges_at(events: Seq<EventView>, dir: AdjDirection, node: Iid) -> Set<Iid> {
    Set::new(
        |x: Iid|
            exists|i: int|
                0 <= i < events.len() && (#[trigger] events[i]).iid == x && near_end(
                    events[i],
                    dir,
                ) == Some(node),
    )
}

fn add_edges_at(
    found: &mut SortedSet<Iid>,
    events: &Vec<Event>,
    dir: AdjDirection,
    node: Iid,
)
    requires
        old(found).wf(),
    ensures
        final(found).wf(),
        final(found)@ == old(found)@.union(edges_at(views(events@), dir, node)),
{
    let ghost start = found@;
    let mut i: usize = 0;
    assert(start.union(edges_at(views(events@).subrange(0, 0), dir, node)) =~= start);
    while i < events.len()
        invariant
            i <= events.len(),
            found.wf(),
            found@ == start.union(edges_at(views(events@).subrange(0, i as int), dir, node)),
        decreases events.len() - i,
    {
        let event = &events[i];
        let near = match dir {
            AdjDirection::Out => event.src,
            AdjDirection::In => event.dst,
        };
        let hit = match near {
            Some(n) => n.bits == node.bits,
            None => false,
        };
        let ghost before = views(events@).subrange(0, i as int);
        let ghost after = views(events@).subrange(0, i + 1);
        proof {
            assert(after =~= before.push(event@));
            assert forall|x: Iid| #[trigger] edges_at(after, dir, node).contains(x) <==> edges_at(
                before,
                dir,
                node,
            ).contains(x) || (hit && x == event.iid) by {
                if edges_at(before, dir, node).contains(x) {
                    let k = choose|k: int|
                        0 <= k < before.len() && (#[trigger] before[k]).iid == x && near_end(
                            before[k],
                            dir,
                        ) == Some(node);
                    assert(after[k] == before[k]);
                }
                if hit && x == event.iid {
                    assert(after[i as int] == event@);
                }
                if edges_at(after, dir, node).contains(x) {
                    let k = choose|k: int|
                        0 <= k < after.len() && (#[trigger] after[k]).iid == x && near_end(
                            after[k],
                            dir,
                        ) == Some(node);
                    if k < i {
                        assert(before[k] == after[k]);
                    }
                }
            }
        }
        if hit {
            found.insert(event.iid);
            assert(found@ =~= start.union(edges_at(after, dir, node)));
        } else {
            assert(found@ =~= start.union(edges_at(after, dir, node)));
        }
        i += 1;
    }
    assert(views(events@).subrange(0, events@.len() as int) =~= views(events@));
}

/// The entities that a lookup of edges touches: all, or those at a node.
pub open spec fn is_edge_selection(
    sel: IidSel,
    tail: Seq<EventView>,
    overlay: Seq<EventView>,
    dir: AdjDirection,
    anchor: Option<Iid>,
) -> bool {
    match anchor {
        None => sel is All,
        Some(node) => sel matches IidSel::Members(s) && s.wf() && s@ == edges_at(
            tail,
            dir,
            node,
        ).union(edges_at(overlay, dir, node)),
    }
}

/// Which unflushed edges a lookup from a node touches.
pub fn edge_selection(
    core: &TableCore,
    overlay: Option<&LiveTable>,
    dir: AdjDirection,
    anchor: Option<Iid>,
) -> (r: IidSel)
    requires
        core.wf(),
    ensures
        r.wf(),
        is_edge_selection(
            r,
            views(unflushed_events(core@)),
            match overlay {
                Some(o) => views(o@),
                None => Seq::empty(),
            },
            dir,
            anchor,
        ),
{
    let node = match anchor {
        None => {
            return IidSel::All;
        },
        Some(node) => node,
    };
    let mut found: SortedSet<Iid> = SortedSet::new();
    let ghost none: Seq<EventView> = Seq::empty();
    assert(edges_at(none, dir, node) =~= Set::<Iid>::empty());
    match &core.sealed {
        Some(tail) => {
            add_edges_at(&mut found, &tail.events, dir, node);
        },
        None => {},
    }
    add_edges_at(&mut found, &core.live.events, dir, node);
    proof {
        let live = views(core.live@);
        let all = views(unflushed_events(core@));
        match &core.sealed {
            Some(tail) => {
                let first = views(tail@);
                assert(all =~= first + live);
                assert forall|x: Iid| #[trigger] edges_at(all, dir, node).contains(x) <==> edges_at(
                    first,
                    dir,
                    node,
                ).contains(x) || edges_at(live, dir, node).contains(x) by {
                    if edges_at(first, dir, node).contains(x) {
                        let k = choose|k: int|
                            0 <= k < first.len() && (#[trigger] first[k]).iid == x && near_end(
                                first[k],
                                dir,
                            ) == Some(node);
                        assert(all[k] == first[k]);
                    }
                    if edges_at(live, dir, node).contains(x) {
                        let k = choose|k: int|
                            0 <= k < live.len() && (#[trigger] live[k]).iid == x && near_end(
                                live[k],
                                dir,
                            ) == Some(node);
                        assert(all[first.len() + k] == live[k]);
                    }
                    if edges_at(all, dir, node).contains(x) {
                        let k = choose|k: int|
                            0 <= k < all.len() && (#[trigger] all[k]).iid == x && near_end(
                                all[k],
                                dir,
                            ) == Some(node);
                        if k < first.len() {
                            assert(first[k] == all[k]);
                        } else {
                            assert(live[k - first.len()] == all[k]);
                        }
                    }
                }
                assert(found@ =~= edges_at(all, dir, node));
            },
            None => {
                assert(all =~= live);
                assert(found@ =~= edges_at(all, dir, node));
            },
        }
    }
    match overlay {
        Some(o) => {
            add_edges_at(&mut found, &o.events, dir, node);
        },
        None => {
            assert(found@ =~= found@.union(edges_at(none, dir, node)));
        },
    }
    IidSel::Members(found)
}

/// Of the events of a page of an adjacency family those at the node, where one
/// is given.
pub fn admit_edges(events: Vec<Event>, dir: AdjDirection, anchor: Option<Iid>) -> (r: Vec<Event>)
    ensures
        r@ == events@.filter(
            |e: Event| anchor is None || near_end(e@, dir) == anchor,
        ),
{
    let ghost all = events@;
    let ghost pred = |e: Event| anchor is None || near_end(e@, dir) == anchor;
    let mut r: Vec<Event> = Vec::new();
    proof {
        reveal(Seq::filter);
        assert(all.subrange(0, 0) =~= Seq::<Event>::empty());
    }
    for event in it: events
        invariant
            it.seq() == all,
            pred == (|e: Event| anchor is None || near_end(e@, dir) == anchor),
            r@ == all.subrange(0, it.index() as int).filter(pred),
    {
        let ghost i = it.index() as int;
        proof {
            reveal(Seq::filter);
            assert(all.subrange(0, i + 1).drop_last() =~= all.subrange(0, i));
            assert(all[i] == event);
        }
        let near = match dir {
            AdjDirection::Out => event.src,
            AdjDirection::In => event.dst,
        };
        let keep = match anchor {
            None => true,
            Some(node) => match near {
                Some(n) => n.bits == node.bits,
                None => false,
            },
        };
        if keep {
            r.push(event);
        }
    }
    assert(all.subrange(0, all.len() as int) =~= all);
    r
}

/// Which edges can be followed: of one label, or of any; with these property
/// values; and, under access control by label, only where every label of the
/// edge may be read.
pub struct EdgeFilter {
    pub label: Option<String>,
    pub props: Vec<(String, Value)>,
    pub visible: Option<SortedSet<String>>,
}

impl EdgeFilter {
    pub open spec fn wf(&self) -> bool {
        self.visible matches Some(s) ==> s.wf()
    }

    /// Whether one version of an edge can be followed. A property that the
    /// version does not have matches no value; an edge without labels is not
    /// visible under access control by label.
    pub open spec fn accepts(&self, p: PayloadView) -> bool {
        &&& (self.label matches Some(l) ==> p.labels.contains(l@))
        &&& (self.visible matches Some(s) ==> p.labels.len() > 0 && forall|i: int|
            0 <= i < p.labels.len() ==> s@.contains(#[trigger] p.labels[i]))
        &&& forall|i: int|
            0 <= i < self.props@.len() ==> p.doc.dom().contains(
                (#[trigger] self.props@[i]).0@,
            ) && p.doc[self.props@[i].0@].same(self.props@[i].1@)
    }

    fn label_accepts(&self, labels: &Vec<String>) -> (r: bool)
        ensures
            r == (self.label matches Some(l) ==> views(labels@).contains(l@)),
    {
        match &self.label {
            None => true,
            Some(l) => contains_text(labels, l.as_str()),
        }
    }

    fn visible_accepts(&self, labels: &Vec<String>) -> (r: bool)
        requires
            self.wf(),
        ensures
            r == (self.visible matches Some(s) ==> labels@.len() > 0 && forall|i: int|
                0 <= i < labels@.len() ==> s@.contains(#[trigger] views(labels@)[i])),
    {
        match &self.visible {
            None => true,
            Some(s) => {
                if labels.len() == 0 {
                    return false;
                }
                let mut i: usize = 0;
                while i < labels.len()
                    invariant
                        i <= labels.len(),
                        s.wf(),
                        self.visible == Some(*s),
                        forall|k: int| 0 <= k < i ==> s@.contains(#[trigger] views(labels@)[k]),
                    decreases labels.len() - i,
                {
                    if !s.contains(&labels[i]) {
                        assert(!s@.contains(views(labels@)[i as int]));
                        return false;
                    }
                    i += 1;
                }
                true
            },
        }
    }

    /// Whether one version of an edge can be followed.
    pub fn admits(&self, p: &Payload) -> (r: bool)
        requires
            self.wf(),
            p.doc.wf(),
        ensures
            r == self.accepts(p@),
    {
        if !self.label_accepts(&p.labels) || !self.visible_accepts(&p.labels) {
            return false;
        }
        let mut i: usize = 0;
        while i < self.props.len()
            invariant
                i <= self.props.len(),
                p.doc.wf(),
                forall|k: int|
                    0 <= k < i ==> p@.doc.dom().contains((#[trigger] self.props@[k]).0@)
                        && p@.doc[self.props@[k].0@].same(self.props@[k].1@),
            decreases self.props.len() - i,
        {
            let (name, want) = &self.props[i];
            let same = match p.doc.get(name.as_str()) {
                Some(got) => got.same(want),
                None => false,
            };
            if !same {
                assert(!(p@.doc.dom().contains(self.props@[i as int].0@)
                    && p@.doc[self.props@[i as int].0@].same(self.props@[i as int].1@)));
                return false;
            }
            i += 1;
        }
        true
    }
}

/// One edge after the merge of all sources: its ends, and the versions that
/// put it and are visible at the bounds of the query.
pub struct EdgeVersions {
    pub src: Option<Iid>,
    pub dst: Option<Iid>,
    pub puts: Vec<Payload>,
}

impl EdgeVersions {
    pub open spec fn wf(&self) -> bool {
        forall|i: int| 0 <= i < self.puts@.len() ==> (#[trigger] self.puts@[i]).doc.wf()
    }

    pub open spec fn matches(&self, filter: EdgeFilter) -> bool {
        exists|i: int| 0 <= i < self.puts@.len() && filter.accepts((#[trigger] self.puts@[i])@)
    }

    fn is_match(&self, filter: &EdgeFilter) -> (r: bool)
        requires
            self.wf(),
            filter.wf(),
        ensures
            r == self.matches(*filter),
    {
        let mut i: usize = 0;
        while i < self.puts.len()
            invariant
                i <= self.puts.len(),
                self.wf(),
                filter.wf(),
                forall|k: int| 0 <= k < i ==> !filter.accepts((#[trigger] self.puts@[k])@),
            decreases self.puts.len() - i,
        {
            assert(self.puts@[i as int].doc.wf());
            if filter.admits(&self.puts[i]) {
                assert(filter.accepts(self.puts@[i as int]@));
                return true;
            }
            i += 1;
        }
        false
    }
}

impl OrderedKey for AdjEntry {
    type Model = AdjEntry;

    open spec fn model(&self) -> AdjEntry {
        *self
    }

    /// By the node, then the neighbor, then the edge.
    open spec fn less(a: AdjEntry, b: AdjEntry) -> bool {
        if a.node.bits != b.node.bits {
            a.node.bits < b.node.bits
        } else if a.neighbor.bits != b.neighbor.bits {
            a.neighbor.bits < b.neighbor.bits
        } else {
            a.edge.bits < b.edge.bits
        }
    }

    proof fn order_laws(a: AdjEntry, b: AdjEntry) {
    }

    proof fn transitive(a: AdjEntry, b: AdjEntry, c: AdjEntry) {
    }

    fn before(&self, other: &Self) -> (r: bool) {
        if self.node.bits != other.node.bits {
            self.node.bits < other.node.bits
        } else if self.neighbor.bits != other.neighbor.bits {
            self.neighbor.bits < other.neighbor.bits
        } else {
            self.edge.bits < other.edge.bits
        }
    }
}

/// The error of a traversal that grew too large.
pub open spec fn budget_error(kind: Seq<char>, budget: usize) -> ErrorView {
    ErrorView::Plan(
        PlanErrorView::Other(
            "traversal "@ + kind + " budget "@ + (decimal(budget as nat)
                + " exceeded; make the query more selective"@),
        ),
    )
}

pub fn traversal_budget_exhausted(kind: &str, budget: usize) -> (r: EngineError)
    ensures
        r@ == budget_error(kind@, budget),
{
    let tail = crate::text::concat2(
        decimal_text(budget as u64).as_str(),
        " exceeded; make the query more selective",
    );
    EngineError::Plan(
        PlanError::Other(concat4("traversal ", kind, " budget ", tail.as_str())),
    )
}

/// An edge as seen from the end from which it is followed.
pub open spec fn entry_at(edge: Iid, src: Iid, dst: Iid, dir: AdjDirection) -> AdjEntry {
    match dir {
        AdjDirection::Out => AdjEntry { node: src, neighbor: dst, edge },
        AdjDirection::In => AdjEntry { node: dst, neighbor: src, edge },
    }
}

/// The entries found so far, after one more edge.
pub open spec fn adjacency_step(
    found: Seq<AdjEntry>,
    edge: Iid,
    v: EdgeVersions,
    filter: EdgeFilter,
    dir: AdjDirection,
    budget: Option<usize>,
) -> Result<Seq<AdjEntry>, ErrorView> {
    if !v.matches(filter) {
        Ok(found)
    } else if v.src is None || v.dst is None {
        Err(ErrorView::Index(IndexErrorView::Other("edge event missing endpoints"@)))
    } else if budget matches Some(b) && found.len() >= b {
        Err(budget_error("adjacency"@, budget->0))
    } else {
        Ok(found.push(entry_at(edge, v.src->0, v.dst->0, dir)))
    }
}

/// The edges that can be followed, ordered by node, neighbor and edge.
pub open spec fn adjacency_spec(
    merged: Map<Iid, EdgeVersions>,
    filter: EdgeFilter,
    dir: AdjDirection,
    budget: Option<usize>,
) -> Result<Seq<AdjEntry>, ErrorView> {
    match try_fold(
        sorted_seq::<Iid>(merged.dom()),
        Seq::<AdjEntry>::empty(),
        |found: Seq<AdjEntry>, edge: Iid|
            adjacency_step(found, edge, merged[edge], filter, dir, budget),
    ) {
        Ok(found) => Ok(sorted_seq::<AdjEntry>(found.to_set())),
        Err(e) => Err(e),
    }
}

pub open spec fn versions_wf(merged: Map<Iid, EdgeVersions>) -> bool {
    forall|i: Iid| #[trigger] merged.dom().contains(i) ==> merged[i].wf()
}

/// The members of a set of entries, in order.
pub fn entry_list(set: &SortedSet<AdjEntry>) -> (r: Vec<AdjEntry>)
    requires
        set.wf(),
    ensures
        r@ == sorted_seq::<AdjEntry>(set@),
{
    let n = set.len();
    let mut r: Vec<AdjEntry> = Vec::new();
    let mut i: usize = 0;
    while i < n
        invariant
            i <= n,
            n == set.items().len(),
            r@ == set.items().subrange(0, i as int),
        decreases n - i,
    {
        r.push(*set.item_at(i));
        assert(r@ =~= set.items().subrange(0, i + 1));
        i += 1;
    }
    proof {
        lemma_set_items_sorted(*set);
        assert(r@ =~= set.items());
    }
    r
}

/// The edges that can be followed, one entry for each edge. More than `budget`
/// of them are refused.
pub fn edge_adjacency(
    merged: &SortedMap<Iid, EdgeVersions>,
    filter: &EdgeFilter,
    dir: AdjDirection,
    budget: Option<usize>,
) -> (r: Result<Vec<AdjEntry>, EngineError>)
    requires
        merged.wf(),
        versions_wf(merged@),
        filter.wf(),
    ensures
        match r {
            Ok(entries) => adjacency_spec(merged@, *filter, dir, budget) == Ok::<
                Seq<AdjEntry>,
                ErrorView,
            >(entries@),
            Err(e) => adjacency_spec(merged@, *filter, dir, budget) == Err::<
                Seq<AdjEntry>,
                ErrorView,
            >(e@),
        },
{
    let n = merged.len();
    let ghost keys = merged.keys();
    let ghost m = merged@;
    let ghost none = Seq::<AdjEntry>::empty();
    let ghost step = |found: Seq<AdjEntry>, edge: Iid|
        adjacency_step(found, edge, m[edge], *filter, dir, budget);
    let ghost mut found = Seq::<AdjEntry>::empty();
    let mut set: SortedSet<AdjEntry> = SortedSet::new();
    let mut count: usize = 0;
    let mut i: usize = 0;
    proof {
        lemma_sorted_domain(*merged);
        lemma_map_keys_sorted(*merged);
        lemma_try_fold_all(keys, none, step);
        assert(set@ =~= found.to_set());
    }
    while i < n
        invariant
            i <= n,
            n == keys.len(),
            keys == merged.keys(),
            keys == sorted_seq::<Iid>(m.dom()),
            m == merged@,
            none == Seq::<AdjEntry>::empty(),
            versions_wf(m),
            filter.wf(),
            forall|k: int|
                0 <= k < keys.len() ==> m.dom().contains(#[trigger] keys[k]) && m[keys[k]]
                    == merged.values()[k],
            step == (|found: Seq<AdjEntry>, edge: Iid|
                adjacency_step(found, edge, m[edge], *filter, dir, budget)),
            try_fold(keys.subrange(0, i as int), none, step) == Ok::<Seq<AdjEntry>, ErrorView>(
                found,
            ),
            set.wf(),
            set@ == found.to_set(),
            count == found.len(),
            count <= i,
        decreases n - i,
    {
        let edge = *merged.key_at(i);
        let v = merged.value_at(i);
        proof {
            assert(m.dom().contains(keys[i as int]));
            lemma_try_fold_step(keys, none, step, i as int);
            if try_fold(keys.subrange(0, i + 1), none, step) is Err {
                lemma_try_fold_fails(keys, none, step, i + 1);
            }
        }
        if v.is_match(filter) {
            let (src, dst) = match (v.src, v.dst) {
                (Some(src), Some(dst)) => (src, dst),
                _ => {
                    return Err(
                        EngineError::Index(
                            IndexError::Other("edge event missing endpoints".to_owned()),
                        ),
                    );
                },
            };
            match budget {
                Some(b) => {
                    if count >= b {
                        return Err(traversal_budget_exhausted("adjacency", b));
                    }
                },
                None => {},
            }
            let entry = match dir {
                AdjDirection::Out => AdjEntry { node: src, neighbor: dst, edge },
                AdjDirection::In => AdjEntry { node: dst, neighbor: src, edge },
            };
            set.insert(entry);
            count += 1;
            proof {
                let next = found.push(entry);
                assert(next.to_set() =~= found.to_set().insert(entry)) by {
                    assert forall|x: AdjEntry| #[trigger] next.to_set().contains(x)
                        <==> found.to_set().insert(entry).contains(x) by {
                        if found.contains(x) {
                            let k = found.index_of(x);
                            assert(next[k] == x);
                        }
                        if x == entry {
                            assert(next[found.len() as int] == x);
                        }
                        if next.contains(x) {
                            let k = next.index_of(x);
                            if k < found.len() {
                                assert(found[k] == x);
                            }
                        }
                    }
                }
                found = next;
            }
        }
        i += 1;
    }
    proof {
        lemma_try_fold_all(keys, none, step);
    }
    Ok(entry_list(&set))
}

/// The edges of a merged list that can be followed and have both ends.
pub open spec fn followable(
    merged: Map<Iid, EdgeVersions>,
    filter: EdgeFilter,
    dir: AdjDirection,
) -> Set<AdjEntry> {
    Set::new(
        |e: AdjEntry|
            merged.dom().contains(e.edge) && merged[e.edge].matches(filter)
                && merged[e.edge].src is Some && merged[e.edge].dst is Some && e == entry_at(
                e.edge,
                merged[e.edge].src->0,
                merged[e.edge].dst->0,
                dir,
            ),
    )
}

/// No edge that can be followed lacks an end.
pub open spec fn ends_known(merged: Map<Iid, EdgeVersions>, filter: EdgeFilter) -> bool {
    forall|i: Iid| #[trigger]
        merged.dom().contains(i) && merged[i].matches(filter) ==> merged[i].src is Some
            && merged[i].dst is Some
}

proof fn lemma_found(
    keys: Seq<Iid>,
    merged: Map<Iid, EdgeVersions>,
    filter: EdgeFilter,
    dir: AdjDirection,
    n: int,
)
    requires
        0 <= n <= keys.len(),
        forall|k: int| 0 <= k < keys.len() ==> merged.dom().contains(#[trigger] keys[k]),
    ensures
        ({
            let step = |found: Seq<AdjEntry>, edge: Iid|
                adjacency_step(found, edge, merged[edge], filter, dir, None);
            match try_fold(keys.subrange(0, n), Seq::<AdjEntry>::empty(), step) {
                Ok(found) => {
                    &&& forall|k: int|
                        0 <= k < n && merged[#[trigger] keys[k]].matches(filter)
                            ==> merged[keys[k]].src is Some && merged[keys[k]].dst is Some
                    &&& forall|e: AdjEntry| #[trigger]
                        found.contains(e) <==> followable(merged, filter, dir).contains(e)
                            && keys.subrange(0, n).contains(e.edge)
                },
                Err(_) => !ends_known(merged, filter),
            }
        }),
    decreases n,
{
    let step = |found: Seq<AdjEntry>, edge: Iid|
        adjacency_step(found, edge, merged[edge], filter, dir, None);
    let none = Seq::<AdjEntry>::empty();
    lemma_try_fold_all(keys, none, step);
    if n > 0 {
        lemma_found(keys, merged, filter, dir, n - 1);
        lemma_try_fold_step(keys, none, step, n - 1);
        let front = keys.subrange(0, n - 1);
        let all = keys.subrange(0, n);
        let edge = keys[n - 1];
        assert(merged.dom().contains(edge));
        assert(all =~= front.push(edge));
        match try_fold(front, none, step) {
            Ok(before) => {
                match try_fold(all, none, step) {
                    Ok(found) => {
                        assert forall|e: AdjEntry| #[trigger] found.contains(e) <==> followable(
                            merged,
                            filter,
                            dir,
                        ).contains(e) && all.contains(e.edge) by {
                            if all.contains(e.edge) {
                                let k = all.index_of(e.edge);
                                if k < n - 1 {
                                    assert(front[k] == e.edge);
                                }
                            }
                            if front.contains(e.edge) {
                                let k = front.index_of(e.edge);
                                assert(all[k] == e.edge);
                            }
                            assert(all[n - 1] == edge);
                            if before.contains(e) {
                                let k = before.index_of(e);
                                assert(found[k] == e);
                            }
                            if found.contains(e) {
                                let k = found.index_of(e);
                                if k < before.len() {
                                    assert(before[k] == e);
                                }
                            }
                            if merged[edge].matches(filter) {
                                assert(found[before.len() as int] == entry_at(
                                    edge,
                                    merged[edge].src->0,
                                    merged[edge].dst->0,
                                    dir,
                                ));
                            }
                        }
                    },
                    Err(_) => {},
                }
            },
            Err(_) => {
                assert(try_fold(all, none, step) is Err);
            },
        }
    } else {
        assert(keys.subrange(0, 0) =~= Seq::<Iid>::empty());
    }
}

/// Without a budget a lookup gives all edges that can be followed, one entry
/// for each, in order; it fails exactly where such an edge lacks an end.
pub proof fn law_adjacency_is_complete(
    merged: Map<Iid, EdgeVersions>,
    filter: EdgeFilter,
    dir: AdjDirection,
)
    requires
        merged.dom().finite(),
    ensures
        ends_known(merged, filter) ==> adjacency_spec(merged, filter, dir, None) == Ok::<
            Seq<AdjEntry>,
            ErrorView,
        >(sorted_seq::<AdjEntry>(followable(merged, filter, dir))),
        !ends_known(merged, filter) ==> adjacency_spec(merged, filter, dir, None) == Err::<
            Seq<AdjEntry>,
            ErrorView,
        >(ErrorView::Index(IndexErrorView::Other("edge event missing endpoints"@))),
{
    let keys = sorted_seq::<Iid>(merged.dom());
    lemma_sorted_exists::<Iid>(merged.dom());
    let step = |found: Seq<AdjEntry>, edge: Iid|
        adjacency_step(found, edge, merged[edge], filter, dir, None);
    let none = Seq::<AdjEntry>::empty();
    assert forall|k: int| 0 <= k < keys.len() implies merged.dom().contains(#[trigger] keys[k]) by {
        assert(keys.to_set().contains(keys[k]));
    }
    lemma_found(keys, merged, filter, dir, keys.len() as int);
    assert(keys.subrange(0, keys.len() as int) =~= keys);
    match try_fold(keys, none, step) {
        Ok(found) => {
            assert forall|i: Iid| #[trigger] merged.dom().contains(i) && merged[i].matches(
                filter,
            ) implies merged[i].src is Some && merged[i].dst is Some by {
                assert(keys.to_set().contains(i));
                let k = keys.index_of(i);
                assert(keys[k] == i);
            }
            assert(found.to_set() =~= followable(merged, filter, dir)) by {
                assert forall|e: AdjEntry| #[trigger] found.to_set().contains(e) <==> followable(
                    merged,
                    filter,
                    dir,
                ).contains(e) by {
                    assert(found.contains(e) <==> followable(merged, filter, dir).contains(e)
                        && keys.contains(e.edge));
                    if followable(merged, filter, dir).contains(e) {
                        assert(merged.dom().contains(e.edge));
                        assert(keys.to_set().contains(e.edge));
                    }
                }
            }
        },
        Err(_) => {
            lemma_adjacency_error(keys, merged, filter, dir, keys.len() as int);
        },
    }
}

/// The entries of a lookup come in the order of node, neighbor and edge, and no
/// edge has two.
pub proof fn law_entries_are_in_order(
    merged: Map<Iid, EdgeVersions>,
    filter: EdgeFilter,
    dir: AdjDirection,
    entries: Seq<AdjEntry>,
    i: int,
    j: int,
)
    requires
        merged.dom().finite(),
        adjacency_spec(merged, filter, dir, None) == Ok::<Seq<AdjEntry>, ErrorView>(entries),
        0 <= i < j < entries.len(),
    ensures
        AdjEntry::less(entries[i], entries[j]),
        entries[i].edge != entries[j].edge,
{
    law_adjacency_is_complete(merged, filter, dir);
    let all = followable(merged, filter, dir);
    lemma_followable_finite(merged, filter, dir);
    lemma_sorted_exists::<AdjEntry>(all);
    assert(entries.to_set().contains(entries[i]));
    assert(entries.to_set().contains(entries[j]));
    assert(all.contains(entries[i]) && all.contains(entries[j]));
}

proof fn lemma_adjacency_error(
    keys: Seq<Iid>,
    merged: Map<Iid, EdgeVersions>,
    filter: EdgeFilter,
    dir: AdjDirection,
    n: int,
)
    requires
        0 <= n <= keys.len(),
    ensures
        ({
            let step = |found: Seq<AdjEntry>, edge: Iid|
                adjacency_step(found, edge, merged[edge], filter, dir, None);
            try_fold(keys.subrange(0, n), Seq::<AdjEntry>::empty(), step) matches Err(e) ==> e
                == ErrorView::Index(IndexErrorView::Other("edge event missing endpoints"@))
        }),
    decreases n,
{
    let step = |found: Seq<AdjEntry>, edge: Iid|
        adjacency_step(found, edge, merged[edge], filter, dir, None);
    let none = Seq::<AdjEntry>::empty();
    lemma_try_fold_all(keys, none, step);
    if n > 0 {
        lemma_adjacency_error(keys, merged, filter, dir, n - 1);
        lemma_try_fold_step(keys, none, step, n - 1);
        if try_fold(keys.subrange(0, n - 1), none, step) is Err {
            assert(keys.subrange(0, n).subrange(0, n - 1) =~= keys.subrange(0, n - 1));
            lemma_try_fold_fails(keys.subrange(0, n), none, step, n - 1);
        }
    } else {
        assert(keys.subrange(0, 0) =~= Seq::<Iid>::empty());
    }
}

/// The edges of a merged list that are followed from a node.
pub open spec fn at_node(merged: Map<Iid, EdgeVersions>, dir: AdjDirection, node: Iid) -> Map<
    Iid,
    EdgeVersions,
> {
    merged.restrict(
        Set::new(
            |i: Iid|
                (match dir {
                    AdjDirection::Out => merged[i].src,
                    AdjDirection::In => merged[i].dst,
                }) == Some(node),
        ),
    )
}

/// Looking up the edges at a node gives what a lookup of all edges gives of
/// that node, in the same order.
pub proof fn law_anchored_is_filtered(
    merged: Map<Iid, EdgeVersions>,
    filter: EdgeFilter,
    dir: AdjDirection,
    node: Iid,
)
    requires
        merged.dom().finite(),
        ends_known(merged, filter),
    ensures
        adjacency_spec(at_node(merged, dir, node), filter, dir, None) matches Ok(at)
            && adjacency_spec(merged, filter, dir, None) matches Ok(all) && at == all.filter(
            |e: AdjEntry| e.node == node,
        ),
{
    let part = at_node(merged, dir, node);
    assert(part.dom().subset_of(merged.dom()));
    vstd::set_lib::lemma_set_subset_finite(merged.dom(), part.dom());
    assert(ends_known(part, filter)) by {
        assert forall|i: Iid| #[trigger] part.dom().contains(i) && part[i].matches(
            filter,
        ) implies part[i].src is Some && part[i].dst is Some by {
            assert(merged.dom().contains(i));
        }
    }
    law_adjacency_is_complete(merged, filter, dir);
    law_adjacency_is_complete(part, filter, dir);
    let whole = followable(merged, filter, dir);
    let some = followable(part, filter, dir);
    let pred = |e: AdjEntry| e.node == node;
    assert forall|e: AdjEntry| #[trigger] some.contains(e) <==> whole.contains(e) && e.node
        == node by {
        if whole.contains(e) && e.node == node {
            assert(merged.dom().contains(e.edge));
            assert(part.dom().contains(e.edge));
        }
        if some.contains(e) {
            assert(part.dom().contains(e.edge));
            assert(merged.dom().contains(e.edge));
        }
    }
    lemma_followable_finite(merged, filter, dir);
    lemma_sorted_exists::<AdjEntry>(whole);
    let all = sorted_seq::<AdjEntry>(whole);
    lemma_filter_ascending(all, pred);
    assert(all.filter(pred).to_set() =~= some) by {
        assert forall|e: AdjEntry| #[trigger] some.contains(e) <==> all.filter(
            pred,
        ).to_set().contains(e) by {
            assert(all.to_set().contains(e) <==> whole.contains(e));
            assert(all.contains(e) <==> whole.contains(e));
            lemma_filter_contains(all, pred, e);
        }
    }
    lemma_sorted_seq::<AdjEntry>(all.filter(pred));
}

/// The edges that can be followed are finitely many.
pub proof fn lemma_followable_finite(
    merged: Map<Iid, EdgeVersions>,
    filter: EdgeFilter,
    dir: AdjDirection,
)
    requires
        merged.dom().finite(),
    ensures
        followable(merged, filter, dir).finite(),
{
    let whole = followable(merged, filter, dir);
    let f = |i: Iid| entry_at(i, merged[i].src->0, merged[i].dst->0, dir);
    let image = merged.dom().map(f);
    merged.dom().lemma_map_finite(f);
    assert(whole.subset_of(image)) by {
        assert forall|e: AdjEntry| whole.contains(e) implies image.contains(e) by {
            assert(merged.dom().contains(e.edge) && f(e.edge) == e);
        }
    }
    vstd::set_lib::lemma_set_subset_finite(image, whole);
}

proof fn lemma_filter_contains(s: Seq<AdjEntry>, pred: spec_fn(AdjEntry) -> bool, e: AdjEntry)
    ensures
        s.filter(pred).contains(e) <==> s.contains(e) && pred(e),
    decreases s.len(),
{
    reveal(Seq::filter);
    if s.len() > 0 {
        let front = s.drop_last();
        lemma_filter_contains(front, pred, e);
        if s.contains(e) {
            let k = s.index_of(e);
            if k < front.len() {
                assert(front[k] == e);
            }
        }
        if front.contains(e) {
            let k = front.index_of(e);
            assert(s[k] == e);
        }
        assert(s[s.len() - 1] == s.last());
        let kept = front.filter(pred);
        if pred(s.last()) {
            let out = s.filter(pred);
            assert(out =~= kept.push(s.last()));
            assert(out[kept.len() as int] == s.last());
            if kept.contains(e) {
                let k = kept.index_of(e);
                assert(out[k] == e);
            }
            if out.contains(e) {
                let k = out.index_of(e);
                if k < kept.len() {
                    assert(kept[k] == e);
                }
            }
        }
    }
}

proof fn lemma_filter_ascending(s: Seq<AdjEntry>, pred: spec_fn(AdjEntry) -> bool)
    requires
        ascending::<AdjEntry>(s),
    ensures
        ascending::<AdjEntry>(s.filter(pred)),
    decreases s.len(),
{
    reveal(Seq::filter);
    if s.len() > 0 {
        let front = s.drop_last();
        assert(ascending::<AdjEntry>(front)) by {
            assert forall|i: int, j: int| 0 <= i < j < front.len() implies AdjEntry::less(
                #[trigger] front[i],
                #[trigger] front[j],
            ) by {
                assert(AdjEntry::less(s[i], s[j]));
            }
        }
        lemma_filter_ascending(front, pred);
        let kept = front.filter(pred);
        if pred(s.last()) {
            let out = s.filter(pred);
            assert(out =~= kept.push(s.last()));
            assert forall|i: int, j: int| 0 <= i < j < out.len() implies AdjEntry::less(
                #[trigger] out[i],
                #[trigger] out[j],
            ) by {
                if j < kept.len() {
                    assert(AdjEntry::less(kept[i], kept[j]));
                } else {
                    assert(kept.contains(kept[i]));
                    lemma_filter_contains(front, pred, kept[i]);
                    let k = front.index_of(kept[i]);
                    assert(s[k] == kept[i]);
                    assert(AdjEntry::less(s[k], s[s.len() - 1]));
                }
            }
        }
    }
}

/// A page that may hold an element that is picked is not passed over.
pub proof fn law_no_page_is_passed_over(sel: IidSel, page: PageMeta, iid: Iid)
    requires
        sel.picks(iid),
        page.min_iid.bits <= iid.bits <= page.max_iid.bits,
    ensures
        sel.overlaps(page),
{
    match sel {
        IidSel::Members(s) => {
            assert(s@.contains(iid));
        },
        _ => {},
    }
}

/// An edge is found from its source where it is followed on, and from its
/// destination where it is followed back; the other end is its neighbor there.
pub proof fn law_edges_are_found_at_the_near_end(e: EventView, edge: Iid, src: Iid, dst: Iid)
    ensures
        near_end(e, AdjDirection::Out) == e.src,
        near_end(e, AdjDirection::In) == e.dst,
        entry_at(edge, src, dst, AdjDirection::Out) == (AdjEntry {
            node: src,
            neighbor: dst,
            edge,
        }),
        entry_at(edge, src, dst, AdjDirection::In) == (AdjEntry { node: dst, neighbor: src, edge }),
{
}

/// An edge that passes a filter has the label, has each property with its value
/// and, where only some labels may be seen, has labels and none but these.
pub proof fn law_filters_hold_edges_to_all(filter: EdgeFilter, p: PayloadView, i: int)
    requires
        filter.accepts(p),
    ensures
        filter.label matches Some(l) ==> p.labels.contains(l@),
        filter.visible matches Some(s) ==> p.labels.len() > 0 && (0 <= i < p.labels.len()
            ==> s@.contains(p.labels[i])),
        0 <= i < filter.props@.len() ==> p.doc.dom().contains(filter.props@[i].0@)
            && p.doc[filter.props@[i].0@].same(filter.props@[i].1@),
{
}

/// An edge with the label, all the properties and only labels that may be seen
/// passes.
pub proof fn law_fitting_edges_pass(filter: EdgeFilter, p: PayloadView)
    requires
        filter.label matches Some(l) ==> p.labels.contains(l@),
        filter.visible matches Some(s) ==> p.labels.len() > 0 && forall|i: int|
            0 <= i < p.labels.len() ==> s@.contains(#[trigger] p.labels[i]),
        forall|i: int|
            0 <= i < filter.props@.len() ==> p.doc.dom().contains(
                (#[trigger] filter.props@[i]).0@,
            ) && p.doc[filter.props@[i].0@].same(filter.props@[i].1@),
    ensures
        filter.accepts(p),
{
}

/// The tail that a scan reads holds all that is not in a block: what is sealed,
/// then what is live, then what the transaction has written itself.
pub proof fn law_scans_read_every_tail(core: TableCore, overlay: Option<LiveTable>)
    ensures
        ({
            let sealed = match core.sealed {
                Some(s) => views(s.events@),
                None => Seq::empty(),
            };
            let own = match overlay {
                Some(o) => views(o.events@),
                None => Seq::empty(),
            };
            tail_events(core, overlay) == sealed + views(core.live.events@) + own
        }),
{
    let sealed = match core.sealed {
        Some(s) => views(s.events@),
        None => Seq::empty(),
    };
    let own = match overlay {
        Some(o) => views(o.events@),
        None => Seq::empty(),
    };
    assert(views(unflushed_events(core@)) =~= sealed + views(core.live.events@));
    assert(tail_events(core, overlay) =~= sealed + views(core.live.events@) + own);
}

/// What is grouped by element is each element's own events, all of them and in
/// order.
pub proof fn law_histories_hold_the_own_events(events: Seq<EventView>, iid: Iid, e: EventView)
    ensures
        history(events, iid).contains(e) <==> events.contains(e) && e.iid == iid,
    decreases events.len(),
{
    if events.len() == 0 {
        lemma_history_empty(iid);
        assert(events =~= Seq::<EventView>::empty());
    } else {
        let front = events.drop_last();
        let last = events.last();
        law_histories_hold_the_own_events(front, iid, e);
        lemma_history_push(front, last, iid);
        assert(events =~= front.push(last));
        let before = history(front, iid);
        let all = history(events, iid);
        if front.contains(e) {
            assert(events[front.index_of(e)] == e);
        }
        if before.contains(e) {
            assert(all[before.index_of(e)] == e);
        }
        if events.contains(e) && e.iid == iid {
            let k = events.index_of(e);
            if k < front.len() {
                assert(front[k] == e);
            } else {
                assert(all[all.len() - 1] == e);
            }
        }
        if all.contains(e) {
            let k = all.index_of(e);
            if k < before.len() {
                assert(before[k] == e);
            } else {
                assert(events[events.len() - 1] == e);
            }
        }
    }
}

} // verus!
