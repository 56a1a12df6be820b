//! A scan that reads a table page by page, and only as far as its reader goes:
//! what it reads, and how the pages of all sources become entities.

use crate::effects::sat;
use crate::error::{EngineError, ErrorView};
use crate::event::{events_wf, Event, EventView};
use crate::fold::{fold, lemma_fold_all, lemma_fold_step};
use crate::scan::{
    choose_pages, chooses, group_events, history, is_page_choice, rightly_chosen, verdicts_fit,
    IidSel,
};
use crate::sorted::{lemma_map_keys_sorted, lemma_sorted_domain, sorted_seq, SortedSet};
use crate::state::{
    reserved_kept, wrapped, CoreView, GraphsState, LiveTable, PageMeta, PersistedTrie, ScanStats, StateView,
    TableCore, TableKind,
};
use crate::text::{same_text, views};
use crate::types::{clone_bytes, Iid};
use vstd::prelude::*;

verus! {

/// How many entities are resolved at a time.
pub const CHUNK_ENTITIES: usize = 2048;

/// The pages of a block that a scan reads: the block by its place, the pages by
/// theirs.
pub struct TrieSource {
    pub place: usize,
    pub pages: Vec<usize>,
}

/// What a scan reads.
pub struct LazyScan {
    pub sel: IidSel,
    /// The blocks, oldest first.
    pub tries: Vec<TrieSource>,
    /// The unflushed events, as a block would hold them: the tail that is being
    /// flushed, if there is one, then the other.
    pub tails: Vec<Vec<Event>>,
    pub rows_estimate: usize,
}

/// How a table is scanned.
pub enum LazyPlan {
    /// Nothing can match.
    Empty,
    /// The columns of the table are not known ahead.
    Eager,
    Lazy(LazyScan),
}

/// The entities of a selection that events speak of.
pub open spec fn touched(events: Seq<EventView>, sel: IidSel) -> Set<Iid> {
    Set::new(|i: Iid| sel.picks(i) && history(events, i).len() > 0)
}

/// The events of some entities, one entity after the other, the newest event of
/// each first.
pub open spec fn newest_first(events: Seq<EventView>, iids: Seq<Iid>) -> Seq<EventView> {
    fold(
        iids,
        Seq::empty(),
        |acc: Seq<EventView>, i: Iid| acc + history(events, i).reverse(),
    )
}

/// The events of a selection in the order of a block.
pub open spec fn block_order(events: Seq<EventView>, sel: IidSel) -> Seq<EventView> {
    newest_first(events, sorted_seq::<Iid>(touched(events, sel)))
}

fn tail_of(live: &LiveTable, sel: &IidSel) -> (r: Vec<Event>)
    requires
        live.wf(),
        sel.wf(),
    ensures
        events_wf(r@),
        views(r@) == block_order(views(live@), *sel),
{
    let groups = group_events(&live.events, sel);
    let ghost events = views(live@);
    let ghost iids = groups.keys();
    let ghost step = |acc: Seq<EventView>, i: Iid| acc + history(events, i).reverse();
    proof {
        lemma_sorted_domain(groups);
        lemma_map_keys_sorted(groups);
        assert(groups@.dom() =~= touched(events, *sel));
        lemma_fold_all(iids, Seq::<EventView>::empty(), step);
    }
    let mut rows: Vec<Event> = Vec::new();
    assert(views(rows@) =~= Seq::<EventView>::empty());
    let n = groups.len();
    let mut i: usize = 0;
    while i < n
        invariant
            i <= n,
            n == iids.len(),
            iids == groups.keys(),
            groups.wf(),
            events_wf(rows@),
            forall|k: int|
                0 <= k < iids.len() ==> groups@.dom().contains(#[trigger] iids[k])
                    && groups@[iids[k]] == groups.values()[k],
            forall|x: Iid| #[trigger]
                groups@.dom().contains(x) ==> events_wf(groups@[x]@) && views(groups@[x]@)
                    == history(events, x),
            step == (|acc: Seq<EventView>, i: Iid| acc + history(events, i).reverse()),
            views(rows@) == fold(iids.subrange(0, i as int), Seq::empty(), step),
        decreases n - i,
    {
        proof {
            lemma_fold_step(iids, Seq::<EventView>::empty(), step, i as int);
            assert(groups@.dom().contains(iids[i as int]));
        }
        let list = groups.value_at(i);
        let ghost before = views(rows@);
        let ghost own = history(events, iids[i as int]);
        assert(views(list@) == own);
        let mut k: usize = list.len();
        while k > 0
            invariant
                k <= list@.len(),
                events_wf(list@),
                events_wf(rows@),
                views(list@) == own,
                views(rows@) == before + own.reverse().subrange(0, list@.len() - k),
            decreases k,
        {
            k -= 1;
            let ghost so_far = rows@;
            rows.push(list[k].clone_event());
            proof {
                let m = list@.len() - k;
                assert(own.reverse().subrange(0, m) =~= own.reverse().subrange(0, m - 1).push(
                    own[k as int],
                ));
                assert(views(rows@) =~= views(so_far).push(own[k as int]));
            }
        }
        assert(own.reverse().subrange(0, own.len() as int) =~= own.reverse());
        i += 1;
    }
    proof {
        lemma_fold_all(iids, Seq::<EventView>::empty(), step);
    }
    rows
}

/// The rows of some pages.
pub open spec fn page_rows(pages: Seq<usize>, metas: Seq<PageMeta>) -> int
    decreases pages.len(),
{
    if pages.len() == 0 {
        0
    } else {
        page_rows(pages.drop_last(), metas) + metas[pages.last() as int].rows
    }
}

/// The rows of some blocks.
pub open spec fn source_rows(sources: Seq<TrieSource>, tries: Seq<PersistedTrie>) -> int
    decreases sources.len(),
{
    if sources.len() == 0 {
        0
    } else {
        source_rows(sources.drop_last(), tries) + page_rows(
            sources.last().pages@,
            tries[sources.last().place as int].pages@,
        )
    }
}

pub proof fn lemma_rows_nonneg(sources: Seq<TrieSource>, tries: Seq<PersistedTrie>)
    ensures
        source_rows(sources, tries) >= 0,
    decreases sources.len(),
{
    if sources.len() > 0 {
        lemma_rows_nonneg(sources.drop_last(), tries);
        lemma_page_rows_nonneg(
            sources.last().pages@,
            tries[sources.last().place as int].pages@,
        );
    }
}

proof fn lemma_page_rows_nonneg(pages: Seq<usize>, metas: Seq<PageMeta>)
    ensures
        page_rows(pages, metas) >= 0,
    decreases pages.len(),
{
    if pages.len() > 0 {
        lemma_page_rows_nonneg(pages.drop_last(), metas);
    }
}

/// A block is read exactly where its key filter does not rule it out and some
/// page of it may hold something of the selection.
pub open spec fn block_is_read(
    tries: Seq<PersistedTrie>,
    sel: IidSel,
    filtered_out: Seq<bool>,
    selected: Seq<Vec<bool>>,
    p: int,
) -> bool {
    !filtered_out[p] && exists|q: int|
        0 <= q < tries[p].pages@.len() && #[trigger] selected[p]@[q] && sel.overlaps(
            tries[p].pages@[q],
        )
}

/// A block is among the sources.
pub open spec fn is_source(sources: Seq<TrieSource>, p: int) -> bool {
    exists|k: int| 0 <= k < sources.len() && (#[trigger] sources[k]).place == p
}

/// The blocks that a scan reads, oldest first, each with the pages that it
/// reads.
pub open spec fn are_sources(
    sources: Seq<TrieSource>,
    tries: Seq<PersistedTrie>,
    sel: IidSel,
    filtered_out: Seq<bool>,
    selected: Seq<Vec<bool>>,
    upto: int,
) -> bool {
    &&& forall|i: int, j: int|
        0 <= i < j < sources.len() ==> (#[trigger] sources[i]).place < (
        #[trigger] sources[j]).place
    &&& forall|k: int|
        0 <= k < sources.len() ==> (#[trigger] sources[k]).place < upto && is_page_choice(
            sources[k].pages@,
            tries[sources[k].place as int].pages@,
            sel,
            selected[sources[k].place as int]@,
        )
    &&& forall|p: int|
        0 <= p < upto ==> (#[trigger] is_source(sources, p) <==> block_is_read(
            tries,
            sel,
            filtered_out,
            selected,
            p,
        ))
}

/// How many blocks a key filter rules out.
pub open spec fn ruled_out(filtered_out: Seq<bool>) -> int
    decreases filtered_out.len(),
{
    if filtered_out.len() == 0 {
        0
    } else {
        ruled_out(filtered_out.drop_last()) + if filtered_out.last() {
            1int
        } else {
            0
        }
    }
}

fn rows_of_pages(total: usize, pages: &Vec<usize>, metas: &Vec<PageMeta>, Ghost(so_far): Ghost<
    int,
>) -> (r: usize)
    requires
        so_far >= 0,
        total == sat(so_far),
        forall|k: int| 0 <= k < pages@.len() ==> (#[trigger] pages@[k]) < metas@.len(),
    ensures
        r == sat(so_far + page_rows(pages@, metas@)),
{
    let mut total: usize = total;
    let mut i: usize = 0;
    assert(pages@.subrange(0, 0) =~= Seq::<usize>::empty());
    while i < pages.len()
        invariant
            i <= pages.len(),
            so_far >= 0,
            forall|k: int| 0 <= k < pages@.len() ==> (#[trigger] pages@[k]) < metas@.len(),
            total == sat(so_far + page_rows(pages@.subrange(0, i as int), metas@)),
        decreases pages.len() - i,
    {
        let rows: u64 = metas[pages[i]].rows;
        let most: u64 = usize::MAX as u64;
        let add: usize = if rows > most {
            usize::MAX
        } else {
            rows as usize
        };
        proof {
            let now = pages@.subrange(0, i + 1);
            assert(now.drop_last() =~= pages@.subrange(0, i as int));
            lemma_page_rows_nonneg(pages@.subrange(0, i as int), metas@);
        }
        total = total.saturating_add(add);
        i += 1;
    }
    assert(pages@.subrange(0, pages@.len() as int) =~= pages@);
    total
}

/// The selection of a scan: a scan of all entities narrows to those that the
/// label indexes name, where they do.
pub open spec fn narrows_to(sel: IidSel, candidates: Option<SortedSet<Iid>>, r: IidSel) -> bool {
    match (sel, candidates) {
        (IidSel::All, Some(set)) => r == IidSel::Members(set),
        _ => r == sel,
    }
}

pub fn narrow(sel: IidSel, candidates: Option<SortedSet<Iid>>) -> (r: IidSel)
    requires
        sel.wf(),
        candidates matches Some(set) ==> set.wf(),
    ensures
        r.wf(),
        narrows_to(sel, candidates, r),
{
    match candidates {
        Some(set) => match sel {
            IidSel::All => IidSel::Members(set),
            _ => sel,
        },
        None => sel,
    }
}

/// Every block has a catalog of its properties.
pub open spec fn all_cataloged(tries: Seq<PersistedTrie>) -> bool {
    forall|i: int| 0 <= i < tries.len() ==> (#[trigger] tries[i]).props is Some
}

/// A selection that names no entity.
pub open spec fn picks_nothing(sel: IidSel) -> bool {
    sel matches IidSel::Members(set) && set@ == Set::<Iid>::empty()
}

/// The unflushed events of a table, as blocks would hold them.
pub open spec fn tails_of(core: CoreView, sel: IidSel) -> Seq<Seq<EventView>> {
    let live = block_order(views(core.live), sel);
    match core.sealed {
        Some(s) => seq![block_order(views(s), sel), live],
        None => seq![live],
    }
}

/// The rows of the tails.
pub open spec fn tail_rows(core: CoreView, sel: IidSel) -> int {
    block_order(views(core.live), sel).len() + match core.sealed {
        Some(s) => block_order(views(s), sel).len() as int,
        None => 0,
    }
}

fn all_props(tries: &Vec<PersistedTrie>) -> (r: bool)
    ensures
        r == all_cataloged(tries@),
{
    let mut i: usize = 0;
    while i < tries.len()
        invariant
            i <= tries.len(),
            forall|k: int| 0 <= k < i ==> (#[trigger] tries@[k]).props is Some,
        decreases tries.len() - i,
    {
        if tries[i].props.is_none() {
            assert(!(tries@[i as int].props is Some));
            return false;
        }
        i += 1;
    }
    true
}

/// The blocks that a scan reads, and how many rows their pages have.
fn choose_sources(
    tries: &Vec<PersistedTrie>,
    sel: &IidSel,
    filtered_out: &Vec<bool>,
    selected: &Vec<Vec<bool>>,
    stats: &mut ScanStats,
) -> (r: (Vec<TrieSource>, usize))
    requires
        sel.wf(),
        verdicts_fit(tries@, selected@),
        filtered_out@.len() == tries@.len(),
    ensures
        are_sources(r.0@, tries@, *sel, filtered_out@, selected@, tries@.len() as int),
        r.1 == sat(source_rows(r.0@, tries@)),
        *final(stats) == (ScanStats {
            blocks_skipped: wrapped(
                old(stats).blocks_skipped as int,
                ruled_out(filtered_out@),
            ),
            ..*old(stats)
        }),
{
    let mut sources: Vec<TrieSource> = Vec::new();
    let mut total: usize = 0;
    let mut i: usize = 0;
    assert(filtered_out@.subrange(0, 0) =~= Seq::<bool>::empty());
    while i < tries.len()
        invariant
            i <= tries.len(),
            sel.wf(),
            verdicts_fit(tries@, selected@),
            filtered_out@.len() == tries@.len(),
            are_sources(sources@, tries@, *sel, filtered_out@, selected@, i as int),
            total == sat(source_rows(sources@, tries@)),
            ruled_out(filtered_out@.subrange(0, i as int)) >= 0,
            *stats == (ScanStats {
                blocks_skipped: wrapped(
                    old(stats).blocks_skipped as int,
                    ruled_out(filtered_out@.subrange(0, i as int)),
                ),
                ..*old(stats)
            }),
        decreases tries.len() - i,
    {
        let ghost before = sources@;
        let ghost p0 = i as int;
        proof {
            assert(filtered_out@.subrange(0, i + 1).drop_last() =~= filtered_out@.subrange(
                0,
                i as int,
            ));
            assert(filtered_out@.subrange(0, i + 1).last() == filtered_out@[i as int]);
            assert forall|p: int| p == p0 implies !is_source(before, p) by {
                if is_source(before, p) {
                    let k = choose|k: int|
                        0 <= k < before.len() && (#[trigger] before[k]).place == p;
                    assert(before[k].place < p0);
                }
            }
        }
        if filtered_out[i] {
            stats.record_skipped_block();
            proof {
                lemma_wrapped(
                    old(stats).blocks_skipped as int,
                    ruled_out(filtered_out@.subrange(0, i as int)),
                );
                assert forall|p: int| 0 <= p < i + 1 implies (#[trigger] is_source(before, p)
                    <==> block_is_read(tries@, *sel, filtered_out@, selected@, p)) by {
                    if p == p0 {
                        assert(!is_source(before, p0));
                    }
                }
            }
            i += 1;
            continue ;
        }
        assert(selected@[i as int]@.len() == tries@[i as int].pages@.len());
        let pages = choose_pages(&tries[i].pages, sel, &selected[i]);
        let ghost metas = tries@[p0].pages@;
        let ghost verdicts = selected@[p0]@;
        let ghost chosen = pages@;
        proof {
            lemma_some_page(chosen, metas, *sel, verdicts);
        }
        if pages.len() == 0 {
            proof {
                assert(!block_is_read(tries@, *sel, filtered_out@, selected@, p0));
                assert forall|p: int| 0 <= p < i + 1 implies (#[trigger] is_source(before, p)
                    <==> block_is_read(tries@, *sel, filtered_out@, selected@, p)) by {
                    if p == p0 {
                        assert(!is_source(before, p0));
                    }
                }
            }
            i += 1;
            continue ;
        }
        proof {
            lemma_rows_nonneg(before, tries@);
        }
        total = rows_of_pages(total, &pages, &tries[i].pages, Ghost(source_rows(before, tries@)));
        let source = TrieSource { place: i, pages };
        sources.push(source);
        proof {
            assert(sources@.drop_last() =~= before);
            assert(block_is_read(tries@, *sel, filtered_out@, selected@, p0));
            assert forall|p: int| 0 <= p < i + 1 implies (#[trigger] is_source(sources@, p)
                <==> block_is_read(tries@, *sel, filtered_out@, selected@, p)) by {
                if p == p0 {
                    assert(sources@[before.len() as int].place == p0);
                } else {
                    if is_source(before, p) {
                        let k = choose|k: int|
                            0 <= k < before.len() && (#[trigger] before[k]).place == p;
                        assert(sources@[k].place == p);
                    }
                    if is_source(sources@, p) {
                        let k = choose|k: int|
                            0 <= k < sources@.len() && (#[trigger] sources@[k]).place == p;
                        assert(before[k].place == p);
                    }
                }
            }
        }
        i += 1;
    }
    assert(filtered_out@.subrange(0, filtered_out@.len() as int) =~= filtered_out@);
    (sources, total)
}

/// Some page is chosen exactly where some page may hold something.
proof fn lemma_some_page(
    chosen: Seq<usize>,
    metas: Seq<PageMeta>,
    sel: IidSel,
    verdicts: Seq<bool>,
)
    requires
        is_page_choice(chosen, metas, sel, verdicts),
    ensures
        chosen.len() > 0 <==> exists|q: int|
            0 <= q < metas.len() && #[trigger] verdicts[q] && sel.overlaps(metas[q]),
{
    if chosen.len() > 0 {
        let q = chosen[0] as int;
        assert(rightly_chosen(chosen, metas, sel, verdicts, q));
        assert(chooses(chosen, q));
        assert(verdicts[q] && sel.overlaps(metas[q]));
    }
    if exists|q: int| 0 <= q < metas.len() && #[trigger] verdicts[q] && sel.overlaps(metas[q]) {
        let q = choose|q: int|
            0 <= q < metas.len() && #[trigger] verdicts[q] && sel.overlaps(metas[q]);
        assert(rightly_chosen(chosen, metas, sel, verdicts, q));
    }
}

proof fn lemma_wrapped(a: int, b: int)
    requires
        0 <= a,
        0 <= b,
    ensures
        wrapped(wrapped(a, b) as int, 1) == wrapped(a, b + 1),
{
    let m = 0x1_0000_0000_0000_0000int;
    vstd::arithmetic::div_mod::lemma_add_mod_noop(a + b, 1, m);
    vstd::arithmetic::div_mod::lemma_mod_bound(a + b, m);
}

/// Plans the scan of a table of a graph, off one state. The columns are known
/// where every block has its catalog of properties and no property has two
/// types (`has_columns`). `candidates` are the entities that the label indexes
/// name, where the scan asks for labels; the verdicts of the key filters and of
/// the page indexes are on the narrowed selection.
pub fn plan_lazy_scan(
    state: &GraphsState,
    graph: &str,
    kind: TableKind,
    has_columns: bool,
    sel: IidSel,
    candidates: Option<SortedSet<Iid>>,
    filtered_out: &Vec<bool>,
    selected: &Vec<Vec<bool>>,
    stats: &mut ScanStats,
) -> (r: Result<LazyPlan, EngineError>)
    requires
        state.wf(),
        sel.wf(),
        candidates matches Some(set) ==> set.wf(),
        state@.graphs.dom().contains(graph@) ==> verdicts_fit(
            state@.graphs[graph@].table(kind).tries,
            selected@,
        ) && filtered_out@.len() == state@.graphs[graph@].table(kind).tries.len(),
    ensures
        !state@.graphs.dom().contains(graph@) ==> (r matches Err(e) && e@ == ErrorView::UnknownGraph(
            graph@,
        )),
        r is Err ==> !state@.graphs.dom().contains(graph@),
        state@.graphs.dom().contains(graph@) ==> {
            let core = state@.graphs[graph@].table(kind);
            let eager = !all_cataloged(core.tries) || !has_columns;
            exists|n: IidSel|
                #![trigger picks_nothing(n)]
                n.wf() && narrows_to(sel, candidates, n) && match r {
                    Err(_) => false,
                    Ok(LazyPlan::Eager) => eager,
                    Ok(LazyPlan::Empty) => !eager && (picks_nothing(n) || (tail_rows(core, n) == 0
                        && forall|s: Seq<TrieSource>| #[trigger]
                        are_sources(
                            s,
                            core.tries,
                            n,
                            filtered_out@,
                            selected@,
                            core.tries.len() as int,
                        ) ==> source_rows(s, core.tries) == 0)),
                    Ok(LazyPlan::Lazy(scan)) => {
                        &&& !eager
                        &&& !picks_nothing(n)
                        &&& scan.sel == n
                        &&& are_sources(
                            scan.tries@,
                            core.tries,
                            n,
                            filtered_out@,
                            selected@,
                            core.tries.len() as int,
                        )
                        &&& scan.tails@.len() == tails_of(core, n).len()
                        &&& forall|i: int|
                            0 <= i < scan.tails@.len() ==> events_wf((#[trigger] scan.tails@[i])@)
                                && views(scan.tails@[i]@) == tails_of(core, n)[i]
                        &&& scan.rows_estimate == sat(
                            source_rows(scan.tries@, core.tries) + tail_rows(core, n),
                        )
                        &&& scan.rows_estimate > 0
                    },
                } && *final(stats) == (if eager || picks_nothing(n) {
                    *old(stats)
                } else {
                    ScanStats {
                        blocks_skipped: wrapped(
                            old(stats).blocks_skipped as int,
                            ruled_out(filtered_out@),
                        ),
                        ..*old(stats)
                    }
                })
        },
{
    let table = match state.graph(graph) {
        None => {
            return Err(EngineError::UnknownGraph(graph.to_owned()));
        },
        Some(table) => table,
    };
    let core = table.table(kind);
    let eager = !all_props(&core.tries) || !has_columns;
    let ghost sel0 = sel;
    let ghost candidates0 = candidates;
    let sel = narrow(sel, candidates);
    assert(narrows_to(sel0, candidates0, sel));
    let ghost n = sel;
    let ghost seen = picks_nothing(n);
    if eager {
        return Ok(LazyPlan::Eager);
    }
    match &sel {
        IidSel::Members(set) => {
            if set.len() == 0 {
                proof {
                    crate::sorted::lemma_set_items(*set);
                    assert(set@ =~= Set::<Iid>::empty());
                    assert(picks_nothing(n));
                }
                return Ok(LazyPlan::Empty);
            }
            proof {
                crate::sorted::lemma_set_items(*set);
                assert(set@.contains(set.items()[0])) by {
                    assert(set.items().to_set().contains(set.items()[0]));
                }
            }
        },
        _ => {},
    }
    assert(!picks_nothing(n));
    let mut tails: Vec<Vec<Event>> = Vec::new();
    let mut tail_total: usize = 0;
    match &core.sealed {
        Some(sealed) => {
            let tail = tail_of(sealed, &sel);
            tail_total = tail.len();
            tails.push(tail);
        },
        None => {},
    }
    let tail = tail_of(&core.live, &sel);
    tail_total = tail_total.saturating_add(tail.len());
    tails.push(tail);
    let (tries, block_total) = choose_sources(&core.tries, &sel, filtered_out, selected, stats);
    let rows_estimate: usize = block_total.saturating_add(tail_total);
    proof {
        lemma_rows_nonneg(tries@, core.tries@);
        assert(tail_total == sat(tail_rows(core@, n)));
    }
    if rows_estimate == 0 {
        proof {
            assert forall|s: Seq<TrieSource>| #[trigger]
                are_sources(
                    s,
                    core.tries@,
                    n,
                    filtered_out@,
                    selected@,
                    core.tries@.len() as int,
                ) implies source_rows(s, core.tries@) == 0 by {
                lemma_sources_unique(s, tries@, core.tries@, n, filtered_out@, selected@);
            }
        }
        return Ok(LazyPlan::Empty);
    }
    Ok(LazyPlan::Lazy(LazyScan { sel, tries, tails, rows_estimate }))
}

/// The same blocks and the same pages are read, however they are listed.
proof fn lemma_sources_unique(
    a: Seq<TrieSource>,
    b: Seq<TrieSource>,
    tries: Seq<PersistedTrie>,
    sel: IidSel,
    filtered_out: Seq<bool>,
    selected: Seq<Vec<bool>>,
)
    requires
        are_sources(a, tries, sel, filtered_out, selected, tries.len() as int),
        are_sources(b, tries, sel, filtered_out, selected, tries.len() as int),
    ensures
        source_rows(a, tries) == source_rows(b, tries),
{
    let places_a = Seq::new(a.len(), |k: int| a[k].place);
    let places_b = Seq::new(b.len(), |k: int| b[k].place);
    assert(crate::sorted::ascending::<usize>(places_a));
    assert(crate::sorted::ascending::<usize>(places_b));
    assert(places_a.to_set() =~= places_b.to_set()) by {
        assert forall|p: usize| places_a.to_set().contains(p) implies places_b.to_set().contains(
            p,
        ) by {
            lemma_listed_too(a, b, places_a, places_b, tries, sel, filtered_out, selected, p);
        }
        assert forall|p: usize| places_b.to_set().contains(p) implies places_a.to_set().contains(
            p,
        ) by {
            lemma_listed_too(b, a, places_b, places_a, tries, sel, filtered_out, selected, p);
        }
    }
    crate::sorted::lemma_ascending_unique::<usize>(places_a, places_b);
    assert(a.len() == b.len());
    assert forall|k: int| 0 <= k < a.len() implies a[k].place == b[k].place && (
    #[trigger] a[k]).pages@ == b[k].pages@ by {
        assert(places_a[k] == places_b[k]);
        let p = a[k].place as int;
        lemma_pages_unique(
            a[k].pages@,
            b[k].pages@,
            tries[p].pages@,
            sel,
            selected[p]@,
        );
    }
    lemma_same_rows(a, b, tries);
}

proof fn lemma_listed_too(
    a: Seq<TrieSource>,
    b: Seq<TrieSource>,
    places_a: Seq<usize>,
    places_b: Seq<usize>,
    tries: Seq<PersistedTrie>,
    sel: IidSel,
    filtered_out: Seq<bool>,
    selected: Seq<Vec<bool>>,
    p: usize,
)
    requires
        are_sources(a, tries, sel, filtered_out, selected, tries.len() as int),
        are_sources(b, tries, sel, filtered_out, selected, tries.len() as int),
        places_a == Seq::new(a.len(), |k: int| a[k].place),
        places_b == Seq::new(b.len(), |k: int| b[k].place),
        places_a.to_set().contains(p),
    ensures
        places_b.to_set().contains(p),
{
    assert(places_a.contains(p));
    let k = places_a.index_of(p);
    assert(a[k].place == p);
    assert(is_source(a, p as int));
    assert(is_source(b, p as int));
    let j = choose|j: int| 0 <= j < b.len() && (#[trigger] b[j]).place == p as int;
    assert(places_b[j] == p);
}

proof fn lemma_pages_unique(
    a: Seq<usize>,
    b: Seq<usize>,
    metas: Seq<PageMeta>,
    sel: IidSel,
    verdicts: Seq<bool>,
)
    requires
        is_page_choice(a, metas, sel, verdicts),
        is_page_choice(b, metas, sel, verdicts),
    ensures
        a == b,
{
    assert(crate::sorted::ascending::<usize>(a));
    assert(crate::sorted::ascending::<usize>(b));
    assert(a.to_set() =~= b.to_set()) by {
        assert forall|p: usize| #[trigger] a.to_set().contains(p) <==> b.to_set().contains(p) by {
            if a.contains(p) {
                let k = a.index_of(p);
                assert(a[k] == p);
                assert(rightly_chosen(a, metas, sel, verdicts, p as int));
                assert(rightly_chosen(b, metas, sel, verdicts, p as int));
                assert(chooses(a, p as int));
                let j = choose|j: int| 0 <= j < b.len() && #[trigger] b[j] == p as int;
                assert(b[j] == p);
            }
            if b.contains(p) {
                let k = b.index_of(p);
                assert(b[k] == p);
                assert(rightly_chosen(a, metas, sel, verdicts, p as int));
                assert(rightly_chosen(b, metas, sel, verdicts, p as int));
                assert(chooses(b, p as int));
                let j = choose|j: int| 0 <= j < a.len() && #[trigger] a[j] == p as int;
                assert(a[j] == p);
            }
        }
    }
    crate::sorted::lemma_ascending_unique::<usize>(a, b);
}

proof fn lemma_same_rows(a: Seq<TrieSource>, b: Seq<TrieSource>, tries: Seq<PersistedTrie>)
    requires
        a.len() == b.len(),
        forall|k: int|
            0 <= k < a.len() ==> a[k].place == b[k].place && (#[trigger] a[k]).pages@
                == b[k].pages@,
    ensures
        source_rows(a, tries) == source_rows(b, tries),
    decreases a.len(),
{
    if a.len() > 0 {
        assert forall|k: int| 0 <= k < a.len() - 1 implies a.drop_last()[k].place
            == b.drop_last()[k].place && (#[trigger] a.drop_last()[k]).pages@
            == b.drop_last()[k].pages@ by {
            assert(a[k].pages@ == b[k].pages@);
        }
        lemma_same_rows(a.drop_last(), b.drop_last(), tries);
        assert(a[a.len() - 1].pages@ == b[a.len() - 1].pages@);
    }
}

/// The type of a fixed column.
#[derive(Clone, Copy, Debug, PartialEq, Eq, Structural)]
pub enum FieldType {
    /// Sixteen bytes.
    Iid,
    /// Microseconds, in UTC.
    Timestamp,
    /// A list of strings.
    Texts,
}

/// A column of a scan: a fixed one, or a property.
pub enum ScanField<F> {
    Fixed(&'static str, FieldType),
    Prop(F),
}

/// The fixed columns of a table.
pub open spec fn fixed_fields(kind: TableKind) -> Seq<(Seq<char>, FieldType)> {
    let times = seq![
        ("_iid"@, FieldType::Iid),
        ("_system_from"@, FieldType::Timestamp),
        ("_system_to"@, FieldType::Timestamp),
        ("_valid_from"@, FieldType::Timestamp),
        ("_valid_to"@, FieldType::Timestamp),
    ];
    let ends = match kind {
        TableKind::Nodes => Seq::empty(),
        TableKind::Edges => seq![("_src_iid"@, FieldType::Iid), ("_dst_iid"@, FieldType::Iid)],
    };
    times + ends + seq![("_labels"@, FieldType::Texts)]
}

/// The columns of a scan: the fixed ones, then the properties in their order.
pub fn scan_fields<F>(kind: TableKind, props: Vec<F>) -> (r: Vec<ScanField<F>>)
    ensures
        r@.len() == fixed_fields(kind).len() + props@.len(),
        forall|i: int|
            0 <= i < fixed_fields(kind).len() ==> ((#[trigger] r@[i]) matches ScanField::Fixed(
                name,
                ty,
            ) && (name@, ty) == fixed_fields(kind)[i]),
        forall|i: int|
            0 <= i < props@.len() ==> #[trigger] r@[fixed_fields(kind).len() + i]
                == ScanField::Prop(props@[i]),
{
    let mut fields: Vec<ScanField<F>> = Vec::new();
    fields.push(ScanField::Fixed("_iid", FieldType::Iid));
    fields.push(ScanField::Fixed("_system_from", FieldType::Timestamp));
    fields.push(ScanField::Fixed("_system_to", FieldType::Timestamp));
    fields.push(ScanField::Fixed("_valid_from", FieldType::Timestamp));
    fields.push(ScanField::Fixed("_valid_to", FieldType::Timestamp));
    match kind {
        TableKind::Nodes => {},
        TableKind::Edges => {
            fields.push(ScanField::Fixed("_src_iid", FieldType::Iid));
            fields.push(ScanField::Fixed("_dst_iid", FieldType::Iid));
        },
    }
    fields.push(ScanField::Fixed("_labels", FieldType::Texts));
    let ghost fixed = fields@;
    let ghost all = props@;
    for prop in it: props
        invariant
            it.seq() == all,
            fields@.len() == fixed.len() + it.index(),
            forall|i: int| 0 <= i < fixed.len() ==> #[trigger] fields@[i] == fixed[i],
            forall|i: int|
                fixed.len() <= i < fields@.len() ==> #[trigger] fields@[i] == ScanField::Prop(
                    all[i - fixed.len()],
                ),
    {
        fields.push(ScanField::Prop(prop));
    }
    fields
}

/// The blocks that have no catalog of their properties yet, by their places.
pub fn missing_catalogs(core: &TableCore) -> (r: Vec<usize>)
    ensures
        forall|i: int, j: int| 0 <= i < j < r@.len() ==> (#[trigger] r@[i]) < (#[trigger] r@[j]),
        forall|i: int|
            0 <= i < r@.len() ==> (#[trigger] r@[i]) < core@.tries.len()
                && core@.tries[r@[i] as int].props is None,
        forall|p: int|
            0 <= p < core@.tries.len() && (#[trigger] core@.tries[p]).props is None ==> chooses(
                r@,
                p,
            ),
{
    let mut r: Vec<usize> = Vec::new();
    let mut i: usize = 0;
    while i < core.tries.len()
        invariant
            i <= core.tries.len(),
            forall|a: int, b: int|
                0 <= a < b < r@.len() ==> (#[trigger] r@[a]) < (#[trigger] r@[b]),
            forall|a: int|
                0 <= a < r@.len() ==> (#[trigger] r@[a]) < i && core@.tries[r@[a] as int].props
                    is None,
            forall|p: int|
                0 <= p < i && (#[trigger] core@.tries[p]).props is None ==> chooses(r@, p),
        decreases core.tries.len() - i,
    {
        let ghost before = r@;
        if core.tries[i].props.is_none() {
            r.push(i);
            assert(r@[before.len() as int] == i);
        }
        proof {
            assert forall|p: int| 0 <= p < i + 1 && (#[trigger] core@.tries[p]).props
                is None implies chooses(r@, p) by {
                if p < i {
                    let k = choose|k: int| 0 <= k < before.len() && #[trigger] before[k] == p;
                    assert(r@[k] == p);
                } else {
                    assert(r@[before.len() as int] == p);
                }
            }
        }
        i += 1;
    }
    r
}

/// The catalog that was found for a block: the first of its name.
pub open spec fn catalog_for(derived: Seq<(String, Vec<u8>)>, key: Seq<char>) -> Option<Seq<u8>>
    decreases derived.len(),
{
    if derived.len() == 0 {
        None
    } else if derived[0].0@ == key {
        Some(derived[0].1@)
    } else {
        catalog_for(derived.subrange(1, derived.len() as int), key)
    }
}

/// A block with its catalog, where it had none and one was found.
pub open spec fn is_filled(
    before: PersistedTrie,
    after: PersistedTrie,
    derived: Seq<(String, Vec<u8>)>,
) -> bool {
    &&& after.entry == before.entry
    &&& after.pages == before.pages
    &&& after.labels == before.labels
    &&& after.keys == before.keys
    &&& match before.props {
        Some(_) => after.props == before.props,
        None => match catalog_for(derived, before.entry.trie_key@) {
            None => after.props is None,
            Some(bytes) => after.props matches Some(p) && p@ == bytes,
        },
    }
}

fn find_catalog<'a>(derived: &'a Vec<(String, Vec<u8>)>, key: &String) -> (r: Option<&'a Vec<u8>>)
    ensures
        match r {
            Some(bytes) => catalog_for(derived@, key@) == Some(bytes@),
            None => catalog_for(derived@, key@) is None,
        },
{
    let mut i: usize = 0;
    assert(derived@.subrange(0, derived@.len() as int) =~= derived@);
    while i < derived.len()
        invariant
            i <= derived.len(),
            catalog_for(derived@, key@) == catalog_for(
                derived@.subrange(i as int, derived@.len() as int),
                key@,
            ),
        decreases derived.len() - i,
    {
        let ghost rest = derived@.subrange(i as int, derived@.len() as int);
        assert(rest[0] == derived@[i as int]);
        assert(rest.subrange(1, rest.len() as int) =~= derived@.subrange(
            i + 1,
            derived@.len() as int,
        ));
        if same_text(&derived[i].0, key) {
            return Some(&derived[i].1);
        }
        i += 1;
    }
    None
}

fn fill_tries(tries: Vec<PersistedTrie>, derived: &Vec<(String, Vec<u8>)>) -> (r: Vec<
    PersistedTrie,
>)
    ensures
        r@.len() == tries@.len(),
        forall|i: int| 0 <= i < r@.len() ==> is_filled(tries@[i], #[trigger] r@[i], derived@),
{
    let ghost all = tries@;
    let mut r: Vec<PersistedTrie> = Vec::new();
    for trie in it: tries
        invariant
            it.seq() == all,
            r@.len() == it.index(),
            forall|i: int| 0 <= i < r@.len() ==> is_filled(all[i], #[trigger] r@[i], derived@),
    {
        let ghost i = it.index() as int;
        assert(all[i] == trie);
        let mut trie = trie;
        if trie.props.is_none() {
            match find_catalog(derived, &trie.entry.trie_key) {
                Some(bytes) => {
                    let copy = clone_bytes(bytes);
                    trie.props = Some(copy);
                },
                None => {},
            }
        }
        assert(is_filled(all[i], trie, derived@));
        r.push(trie);
    }
    r
}

/// Two lists of blocks, the second with the catalogs that were found.
pub open spec fn are_filled(
    before: Seq<PersistedTrie>,
    after: Seq<PersistedTrie>,
    derived: Seq<(String, Vec<u8>)>,
) -> bool {
    &&& after.len() == before.len()
    &&& forall|i: int| 0 <= i < after.len() ==> is_filled(before[i], #[trigger] after[i], derived)
}

impl GraphsState {
    /// Puts the catalogs that were found into the blocks that had none. A block
    /// that got one meanwhile keeps it; a graph that is gone is passed over.
    pub fn fill_catalogs(&mut self, graph: &str, kind: TableKind, derived: &Vec<(String, Vec<u8>)>)
        requires
            old(self).wf(),
        ensures
            final(self).wf(),
            if !old(self)@.graphs.dom().contains(graph@) {
                final(self)@ == old(self)@
            } else {
                let table = old(self)@.graphs[graph@];
                exists|tries: Seq<PersistedTrie>| #[trigger]
                    are_filled(table.table(kind).tries, tries, derived@) && final(self)@ == (
                    StateView {
                        graphs: old(self)@.graphs.insert(
                            graph@,
                            table.with_core(kind, CoreView { tries, ..table.table(kind) }),
                        ),
                        ..old(self)@
                    })
            },
    {
        let ghost before = self@;
        let name = graph.to_owned();
        let mut table = match self.graphs.remove(&name) {
            Some(t) => t,
            None => {
                assert(self@.graphs =~= before.graphs);
                return ;
            },
        };
        let ghost table0 = table@;
        let mut tries: Vec<PersistedTrie> = Vec::new();
        match kind {
            TableKind::Nodes => {
                std::mem::swap(&mut tries, &mut table.nodes.tries);
                table.nodes.tries = fill_tries(tries, derived);
            },
            TableKind::Edges => {
                std::mem::swap(&mut tries, &mut table.edges.tries);
                table.edges.tries = fill_tries(tries, derived);
            },
        }
        let ghost after = table@;
        assert(are_filled(table0.table(kind).tries, after.table(kind).tries, derived@));
        assert(after =~= table0.with_core(
            kind,
            CoreView { tries: after.table(kind).tries, ..table0.table(kind) },
        ));
        assert(table.wf());
        let ghost whole = table;
        let ghost rest = self.graphs@;
        self.graphs.insert(name, table);
        proof {
            assert(self@.graphs =~= before.graphs.insert(graph@, after));
            assert forall|g: Seq<char>| #[trigger]
                self.graphs@.dom().contains(g) implies self.graphs@[g].wf() by {
                if g == graph@ {
                    assert(self.graphs@[g] == whole);
                } else {
                    assert(rest.dom().contains(g));
                }
            }
            assert(self@.catalog =~= before.catalog);
            assert(reserved_kept(self@));
        }
    }
}

/// No page that may hold a picked entity is left out: where neither the key
/// filter rules the block out nor the page index the page, the block is among the
/// sources, and the page among the pages that are read of it.
pub proof fn law_no_source_is_left_out(
    sources: Seq<TrieSource>,
    tries: Seq<PersistedTrie>,
    sel: IidSel,
    filtered_out: Seq<bool>,
    selected: Seq<Vec<bool>>,
    upto: int,
    p: int,
    q: int,
    iid: Iid,
) -> (k: int)
    requires
        are_sources(sources, tries, sel, filtered_out, selected, upto),
        0 <= p < upto,
        !filtered_out[p],
        0 <= q < tries[p].pages@.len(),
        tries[p].pages@.len() <= usize::MAX,
        selected[p]@[q],
        sel.picks(iid),
        tries[p].pages@[q].min_iid.bits <= iid.bits <= tries[p].pages@[q].max_iid.bits,
    ensures
        0 <= k < sources.len(),
        sources[k].place == p,
        sources[k].pages@.contains(q as usize),
{
    crate::scan::law_no_page_is_passed_over(sel, tries[p].pages@[q], iid);
    assert(block_is_read(tries, sel, filtered_out, selected, p));
    assert(is_source(sources, p));
    let k = choose|k: int| 0 <= k < sources.len() && (#[trigger] sources[k]).place == p;
    assert(rightly_chosen(sources[k].pages@, tries[p].pages@, sel, selected[p]@, q));
    k
}

/// A tail is read as a block would hold it: every event of every picked entity,
/// and no other.
pub proof fn law_tails_lose_no_event(events: Seq<EventView>, sel: IidSel, e: EventView)
    ensures
        block_order(events, sel).contains(e) <==> events.contains(e) && sel.picks(e.iid),
{
    let t = touched(events, sel);
    lemma_touched_finite(events, sel);
    crate::sorted::lemma_sorted_exists::<Iid>(t);
    let iids = sorted_seq::<Iid>(t);
    lemma_newest_first(events, iids, iids.len() as int, e);
    assert(iids.subrange(0, iids.len() as int) =~= iids);
    crate::scan::law_histories_hold_the_own_events(events, e.iid, e);
    if events.contains(e) && sel.picks(e.iid) {
        assert(history(events, e.iid).contains(e));
        assert(t.contains(e.iid));
        assert(iids.to_set().contains(e.iid));
        assert(iids.contains(e.iid));
        let i = iids.index_of(e.iid);
        assert(iids[i] == e.iid && history(events, iids[i]).contains(e));
    }
    if block_order(events, sel).contains(e) {
        let i = choose|i: int|
            0 <= i < iids.len() && history(events, #[trigger] iids[i]).contains(e);
        crate::scan::law_histories_hold_the_own_events(events, iids[i], e);
        assert(iids.to_set().contains(iids[i]));
        assert(t.contains(iids[i]));
    }
}

proof fn lemma_touched_finite(events: Seq<EventView>, sel: IidSel)
    ensures
        touched(events, sel).finite(),
{
    let ids = events.map_values(|e: EventView| e.iid);
    vstd::seq_lib::seq_to_set_is_finite(ids);
    assert forall|i: Iid| #[trigger] touched(events, sel).contains(i) implies ids.to_set().contains(
        i,
    ) by {
        let h = history(events, i);
        let e = h[0];
        assert(h.contains(e));
        crate::scan::law_histories_hold_the_own_events(events, i, e);
        let k = events.index_of(e);
        assert(ids[k] == i);
    }
    vstd::set_lib::lemma_set_subset_finite(ids.to_set(), touched(events, sel));
}

proof fn lemma_newest_first(events: Seq<EventView>, iids: Seq<Iid>, n: int, e: EventView)
    requires
        0 <= n <= iids.len(),
    ensures
        newest_first(events, iids.subrange(0, n)).contains(e) <==> exists|i: int|
            0 <= i < n && history(events, #[trigger] iids[i]).contains(e),
    decreases n,
{
    let step = |acc: Seq<EventView>, i: Iid| acc + history(events, i).reverse();
    lemma_fold_all(iids, Seq::<EventView>::empty(), step);
    if n > 0 {
        lemma_newest_first(events, iids, n - 1, e);
        lemma_fold_step(iids, Seq::<EventView>::empty(), step, n - 1);
        let before = newest_first(events, iids.subrange(0, n - 1));
        let h = history(events, iids[n - 1]);
        let all = newest_first(events, iids.subrange(0, n));
        assert(all == before + h.reverse());
        if before.contains(e) {
            assert(all[before.index_of(e)] == e);
        }
        if h.contains(e) {
            let k = h.index_of(e);
            assert(h.reverse()[h.len() - 1 - k] == e);
            assert(all[before.len() + h.len() - 1 - k] == e);
            assert(history(events, iids[n - 1]).contains(e));
        }
        if all.contains(e) {
            let k = all.index_of(e);
            if k < before.len() {
                assert(before[k] == e);
            } else {
                assert(h.reverse()[k - before.len()] == e);
                assert(h[h.len() - 1 - (k - before.len())] == e);
            }
        }
    }
}

} // verus!
