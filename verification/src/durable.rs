//! What the log promises: a node that replays it knows what the writer knew.

use crate::ast::GraphStmt;
use crate::commit::{
    batch_applied, event_applied, events_applied, op_applied, tx_applied, ApplyStop,
};
use crate::ddl::graph_stmt_spec;
use crate::effects::{CatalogOpView, EffectsView};
use crate::error::ErrorView;
use crate::event::Event;
use crate::fold::{fold, lemma_try_fold_step, try_fold};
use crate::names::reserved_name;
use crate::program::{wire_graph, SealedTx};
use crate::replay::{
    apply_effect, apply_event, apply_record, catalog_mutation_spec, catalog_step, decode_effect,
    CatalogMutationView, EffectView, RawTableEffects,
};
use crate::state::{
    appended, state_appended, StateView, TableKind, TableView, DEFAULT_GRAPH, EDGES_TABLE,
    META_GRAPH, NODES_TABLE,
};
use crate::text::views;
use crate::types::{Iid, Instant};
use vstd::prelude::*;

verus! {

/// What the record of a transaction says: its events, by table, nodes first.
pub open spec fn record_of(tx: SealedTx) -> Seq<EffectView> {
    let nodes = if tx.effects.nodes@.len() > 0 {
        seq![
            EffectView {
                graph: tx.graph@,
                table: TableKind::Nodes,
                events: tx.effects.nodes@,
            },
        ]
    } else {
        Seq::empty()
    };
    let edges = if tx.effects.edges@.len() > 0 {
        seq![
            EffectView {
                graph: tx.graph@,
                table: TableKind::Edges,
                events: tx.effects.edges@,
            },
        ]
    } else {
        Seq::empty()
    };
    nodes + edges
}

/// A part of a record reads as it was written: the default graph, which is not
/// named in a record, is understood.
pub proof fn law_records_read_as_written(raw: RawTableEffects, graph: Seq<char>, table: TableKind)
    requires
        raw.graph@ == wire_graph(graph),
        raw.table@ == table.name_spec(),
        raw.events is Ok,
        graph.len() > 0,
    ensures
        decode_effect(raw) == Ok::<EffectView, ErrorView>(
            EffectView { graph, table, events: raw.events->Ok_0@ },
        ),
{
    reveal_strlit("nodes");
    reveal_strlit("edges");
    assert(NODES_TABLE@[0] == 'n');
    assert(EDGES_TABLE@[0] == 'e');
    assert(DEFAULT_GRAPH@.len() > 0) by {
        reveal_strlit("default");
    }
}

/// Two states with the same graphs.
pub open spec fn same_graphs(a: StateView, b: StateView) -> bool {
    a.graphs == b.graphs
}

proof fn lemma_events_replayed(
    s: StateView,
    r: StateView,
    graph: Seq<char>,
    kind: TableKind,
    events: Seq<Event>,
)
    requires
        same_graphs(s, r),
        graph != META_GRAPH@ || kind != TableKind::Nodes,
        s.graphs.dom().contains(graph),
        events_applied(s, graph, kind, events) is Ok,
    ensures
        ({
            let replayed = try_fold(
                events,
                r,
                |s: StateView, e: Event| apply_event(s, graph, kind, e),
            );
            let s2 = events_applied(s, graph, kind, events)->Ok_0;
            &&& replayed is Ok
            &&& same_graphs(s2, replayed->Ok_0)
            &&& replayed->Ok_0.catalog == r.catalog
            &&& s2.graphs.dom().contains(graph)
        }),
    decreases events.len(),
{
    let step = |s: StateView, e: Event| event_applied(s, graph, kind, e);
    let again = |s: StateView, e: Event| apply_event(s, graph, kind, e);
    if events.len() > 0 {
        let front = events.drop_last();
        let n = front.len() as int;
        assert(events.subrange(0, n) =~= front);
        assert(events.subrange(0, n + 1) =~= events);
        lemma_try_fold_step(events, s, step, n);
        lemma_try_fold_step(events, r, again, n);
        lemma_events_replayed(s, r, graph, kind, front);
        let s1 = try_fold(front, s, step)->Ok_0;
        let r1 = try_fold(front, r, again)->Ok_0;
        let e = events[n];
        assert(apply_event(r1, graph, kind, e) == state_appended(r1, graph, kind, e));
        assert(s1.graphs[graph] == r1.graphs[graph]);
    }
}

/// A transaction that changes data leads a node that replays its record to the
/// same graphs as the writer, from the same graphs. What the node knows of the
/// catalog stays the same.
pub proof fn law_replay_follows_the_writer(s: StateView, r: StateView, tx: SealedTx)
    requires
        same_graphs(s, r),
        tx.effects.catalog_ops@.len() == 0,
        tx.graph@ != META_GRAPH@,
        tx_applied(s, tx) is Ok,
    ensures
        ({
            let replayed = apply_record(r, record_of(tx));
            &&& replayed is Ok
            &&& same_graphs(tx_applied(s, tx)->Ok_0, replayed->Ok_0)
            &&& replayed->Ok_0.catalog == r.catalog
        }),
{
    let graph = tx.graph@;
    let nodes = tx.effects.nodes@;
    let edges = tx.effects.edges@;
    assert(views(tx.effects.catalog_ops@) =~= Seq::<CatalogOpView>::empty());
    let s2 = events_applied(s, graph, TableKind::Nodes, nodes)->Ok_0;
    lemma_events_replayed(s, r, graph, TableKind::Nodes, nodes);
    let record = record_of(tx);
    let step = |s: StateView, eff: EffectView| apply_effect(s, eff);
    assert(record.subrange(0, 0) =~= Seq::<EffectView>::empty());
    if nodes.len() == 0 {
        assert(events_applied(s, graph, TableKind::Nodes, nodes) == Ok::<StateView, ApplyStop>(s));
    }
    let mid = if nodes.len() > 0 {
        lemma_try_fold_step(record, r, step, 0);
        apply_effect(r, record[0])->Ok_0
    } else {
        r
    };
    let at = if nodes.len() > 0 {
        1int
    } else {
        0
    };
    assert(same_graphs(s2, mid) && mid.catalog == r.catalog);
    lemma_events_replayed(s2, mid, graph, TableKind::Edges, edges);
    if edges.len() > 0 {
        lemma_try_fold_step(record, r, step, at);
        assert(record.subrange(0, at + 1) =~= record);
    } else {
        assert(events_applied(s2, graph, TableKind::Edges, edges) == Ok::<StateView, ApplyStop>(
            s2,
        ));
        assert(record.subrange(0, at) =~= record);
    }
}

/// The events of a list can follow a tail, each what is before it.
pub open spec fn follow(live: Seq<Event>, events: Seq<Event>) -> bool
    decreases events.len(),
{
    events.len() > 0 ==> follow(live, events.drop_last()) && appended(
        live + events.drop_last(),
        events.last(),
    ) is Ok
}

/// The state with more events in the tail of a table.
pub open spec fn with_events(
    s: StateView,
    graph: Seq<char>,
    kind: TableKind,
    events: Seq<Event>,
) -> StateView {
    let table = s.graphs[graph];
    StateView {
        graphs: s.graphs.insert(graph, table.with_live(kind, table.table(kind).live + events)),
        ..s
    }
}

proof fn lemma_events_applied(s: StateView, graph: Seq<char>, kind: TableKind, events: Seq<Event>)
    requires
        s.graphs.dom().contains(graph),
    ensures
        events_applied(s, graph, kind, events) is Ok <==> follow(
            s.graphs[graph].table(kind).live,
            events,
        ),
        events_applied(s, graph, kind, events) is Ok ==> events_applied(s, graph, kind, events)
            == Ok::<StateView, ApplyStop>(with_events(s, graph, kind, events)),
    decreases events.len(),
{
    let table = s.graphs[graph];
    let live = table.table(kind).live;
    if events.len() == 0 {
        assert(live + events =~= live);
        assert(table.with_live(kind, live) =~= table);
        assert(s.graphs.insert(graph, table) =~= s.graphs);
    } else {
        let front = events.drop_last();
        lemma_events_applied(s, graph, kind, front);
        if events_applied(s, graph, kind, front) is Ok {
            let s1 = with_events(s, graph, kind, front);
            assert(s1.graphs[graph].table(kind).live == live + front);
            assert((live + front).push(events.last()) =~= live + events);
            assert(s1.graphs.insert(graph, table.with_live(kind, live + events))
                =~= s.graphs.insert(graph, table.with_live(kind, live + events)));
        }
    }
}

/// What is known of the catalog after some of its events.
pub open spec fn catalog_after(c: Map<Iid, Seq<char>>, events: Seq<Event>) -> Map<Iid, Seq<char>>
    decreases events.len(),
{
    if events.len() == 0 {
        c
    } else {
        let before = catalog_after(c, events.drop_last());
        match catalog_mutation_spec(events.last()) {
            CatalogMutationView::Put { iid, name } => before.insert(iid, name),
            CatalogMutationView::Remove { iid } => before.remove(iid),
            CatalogMutationView::Nothing => before,
        }
    }
}

/// An event of the catalog says what a change of the graphs does: it names a new
/// graph, or takes a name back that is known by its identity.
pub open spec fn op_agrees(
    graphs: Set<Seq<char>>,
    c: Map<Iid, Seq<char>>,
    op: CatalogOpView,
    e: Event,
) -> bool {
    match op {
        CatalogOpView::CreateGraph(name) => !graphs.contains(name) && catalog_mutation_spec(e) == (
        CatalogMutationView::Put { iid: e.iid, name }),
        CatalogOpView::DropGraph(name) => name != META_GRAPH@ && catalog_mutation_spec(e) == (
        CatalogMutationView::Remove { iid: e.iid }) && c.dom().contains(e.iid) && c[e.iid] == name,
    }
}

/// The graphs after some changes of the catalog.
pub open spec fn ops_applied(s: StateView, ops: Seq<CatalogOpView>) -> StateView {
    fold(ops, s, |s: StateView, op: CatalogOpView| op_applied(s, op))
}

/// Every event of the catalog says what the change at its place does.
pub open spec fn catalog_agrees(
    s: StateView,
    c: Map<Iid, Seq<char>>,
    ops: Seq<CatalogOpView>,
    events: Seq<Event>,
) -> bool
    decreases ops.len(),
{
    &&& ops.len() == events.len()
    &&& ops.len() > 0 ==> catalog_agrees(s, c, ops.drop_last(), events.drop_last()) && op_agrees(
        ops_applied(s, ops.drop_last()).graphs.dom(),
        catalog_after(c, events.drop_last()),
        ops.last(),
        events.last(),
    )
}

proof fn lemma_catalog_events(
    s: StateView,
    r: StateView,
    ops: Seq<CatalogOpView>,
    events: Seq<Event>,
)
    requires
        same_graphs(s, r),
        s.graphs.dom().contains(META_GRAPH@),
        catalog_agrees(s, r.catalog, ops, events),
        follow(s.graphs[META_GRAPH@].nodes.live, events),
    ensures
        ({
            let s1 = ops_applied(s, ops);
            let replayed = try_fold(
                events,
                r,
                |s: StateView, e: Event| apply_event(s, META_GRAPH@, TableKind::Nodes, e),
            );
            &&& s1.graphs.dom().contains(META_GRAPH@)
            &&& s1.graphs[META_GRAPH@] == s.graphs[META_GRAPH@]
            &&& replayed is Ok
            &&& replayed->Ok_0.catalog == catalog_after(r.catalog, events)
            &&& replayed->Ok_0.graphs == with_events(
                s1,
                META_GRAPH@,
                TableKind::Nodes,
                events,
            ).graphs
        }),
    decreases ops.len(),
{
    let meta = META_GRAPH@;
    let kind = TableKind::Nodes;
    let table = s.graphs[meta];
    let live = table.nodes.live;
    if ops.len() == 0 {
        assert(live + events =~= live);
        assert(table.with_live(kind, live) =~= table);
        assert(s.graphs.insert(meta, table) =~= s.graphs);
    } else {
        let front = events.drop_last();
        let e = events.last();
        let op = ops.last();
        lemma_catalog_events(s, r, ops.drop_last(), front);
        let s0 = ops_applied(s, ops.drop_last());
        let s1 = ops_applied(s, ops);
        assert(s1 == op_applied(s0, op));
        let again = |s: StateView, e: Event| apply_event(s, meta, kind, e);
        let r0 = try_fold(front, r, again)->Ok_0;
        let r1 = catalog_step(r0, e);
        let held = table.with_live(kind, live + front);
        assert(r0.graphs == s0.graphs.insert(meta, held));
        match op {
            CatalogOpView::CreateGraph(name) => {
                assert(name != meta);
                assert(!r0.graphs.dom().contains(name));
                assert(r1.graphs =~= s1.graphs.insert(meta, held));
            },
            CatalogOpView::DropGraph(name) => {
                assert(r1.graphs =~= s1.graphs.insert(meta, held));
            },
        }
        assert(s1.graphs[meta] == table);
        assert(r1.graphs[meta].table(kind).live == live + front);
        assert((live + front).push(e) =~= live + events);
        let whole = table.with_live(kind, live + events);
        assert(held.with_live(kind, live + events) =~= whole);
        assert(r1.graphs.insert(meta, whole) =~= s1.graphs.insert(meta, whole));
        assert(try_fold(events, r, again) == apply_event(r0, meta, kind, e));
    }
}

/// Graphs that the writer made or dropped are made or dropped again where the
/// record is replayed, and the catalog knows the same of them.
pub proof fn law_catalog_changes_come_back(s: StateView, r: StateView, tx: SealedTx)
    requires
        same_graphs(s, r),
        tx.graph@ == META_GRAPH@,
        s.graphs.dom().contains(META_GRAPH@),
        tx.effects.edges@.len() == 0,
        catalog_agrees(s, r.catalog, views(tx.effects.catalog_ops@), tx.effects.nodes@),
        tx_applied(s, tx) is Ok,
    ensures
        ({
            let replayed = apply_record(r, record_of(tx));
            &&& replayed is Ok
            &&& same_graphs(tx_applied(s, tx)->Ok_0, replayed->Ok_0)
            &&& replayed->Ok_0.catalog == catalog_after(r.catalog, tx.effects.nodes@)
        }),
{
    let graph = META_GRAPH@;
    let nodes = tx.effects.nodes@;
    let ops = views(tx.effects.catalog_ops@);
    lemma_meta_kept(s, r.catalog, ops, nodes);
    let s1 = ops_applied(s, ops);
    assert(tx.effects.edges@ =~= Seq::<Event>::empty());
    lemma_events_applied(s1, graph, TableKind::Nodes, nodes);
    let s2 = with_events(s1, graph, TableKind::Nodes, nodes);
    assert(events_applied(s2, graph, TableKind::Edges, tx.effects.edges@) == Ok::<
        StateView,
        ApplyStop,
    >(s2));
    lemma_catalog_events(s, r, ops, nodes);
    assert(META_GRAPH@ != crate::security::SECURITY_GRAPH@) by {
        reveal_strlit("__meta");
        reveal_strlit("__security");
    }
    let record = record_of(tx);
    let whole = |s: StateView, eff: EffectView| apply_effect(s, eff);
    if nodes.len() == 0 {
        assert(record =~= Seq::<EffectView>::empty());
        assert(apply_record(r, record) == Ok::<StateView, ErrorView>(r));
        assert(s1 == s);
        assert(s2.graphs =~= s.graphs) by {
            assert(s.graphs[graph].nodes.live + nodes =~= s.graphs[graph].nodes.live);
            assert(s.graphs[graph].with_live(TableKind::Nodes, s.graphs[graph].nodes.live)
                =~= s.graphs[graph]);
        }
    } else {
        let eff = EffectView { graph, table: TableKind::Nodes, events: nodes };
        assert(record =~= seq![eff]);
        assert(record.subrange(0, 0) =~= Seq::<EffectView>::empty());
        assert(record.subrange(0, 1) =~= record);
        lemma_try_fold_step(record, r, whole, 0);
    }
}

proof fn lemma_meta_kept(
    s: StateView,
    c: Map<Iid, Seq<char>>,
    ops: Seq<CatalogOpView>,
    events: Seq<Event>,
)
    requires
        s.graphs.dom().contains(META_GRAPH@),
        catalog_agrees(s, c, ops, events),
    ensures
        ops_applied(s, ops).graphs.dom().contains(META_GRAPH@),
        ops_applied(s, ops).graphs[META_GRAPH@] == s.graphs[META_GRAPH@],
    decreases ops.len(),
{
    if ops.len() > 0 {
        lemma_meta_kept(s, c, ops.drop_last(), events.drop_last());
        assert(ops_applied(s, ops) == op_applied(ops_applied(s, ops.drop_last()), ops.last()));
    }
}

/// What a catalog statement leaves in its transaction agrees with itself, so its
/// replay comes to the same graphs. A graph that is dropped must be known by the
/// identity that is derived from its name.
pub proof fn law_graph_statements_agree(
    s: StateView,
    c: Map<Iid, Seq<char>>,
    stmt: GraphStmt,
    iid: Iid,
    system: Instant,
    eff: EffectsView,
    e: Event,
)
    requires
        graph_stmt_spec(s, stmt, Ok(iid), system) == Ok::<EffectsView, ErrorView>(eff),
        eff.nodes == seq![e@],
        stmt matches GraphStmt::Drop(name) ==> c.dom().contains(iid) && c[iid] == name@,
        s.graphs.dom().contains(DEFAULT_GRAPH@),
    ensures
        eff.edges.len() == 0,
        catalog_agrees(s, c, eff.catalog_ops, seq![e]),
{
    reveal_strlit("__");
    reveal_strlit("__meta");
    assert(reserved_name(META_GRAPH@)) by {
        assert(META_GRAPH@.subrange(0, 2) =~= "__"@);
    }
    assert(eff.nodes[0] == e@);
    let ops = eff.catalog_ops;
    let events = seq![e];
    assert(ops.len() == 1);
    assert(ops.drop_last() =~= Seq::<CatalogOpView>::empty());
    assert(events.drop_last() =~= Seq::<Event>::empty());
    assert(ops_applied(s, ops.drop_last()) == s);
    match stmt {
        GraphStmt::Create(name) => {
            let labels = seq!["Graph"@];
            assert(labels[0] == "Graph"@);
            assert(labels.contains("Graph"@));
        },
        GraphStmt::Drop(_) => {},
    }
    assert(op_agrees(s.graphs.dom(), c, ops.last(), e));
    assert(catalog_agrees(s, c, ops.drop_last(), events.drop_last()));
}

/// The record of a transaction can be replayed: it changes data, or its events
/// of the catalog agree with what it does to the graphs.
pub open spec fn replayable(s: StateView, c: Map<Iid, Seq<char>>, tx: SealedTx) -> bool {
    if tx.graph@ == META_GRAPH@ {
        tx.effects.edges@.len() == 0 && catalog_agrees(
            s,
            c,
            views(tx.effects.catalog_ops@),
            tx.effects.nodes@,
        )
    } else {
        tx.effects.catalog_ops@.len() == 0
    }
}

/// What is known of the catalog after a batch.
pub open spec fn batch_catalog(c: Map<Iid, Seq<char>>, txs: Seq<SealedTx>) -> Map<Iid, Seq<char>>
    decreases txs.len(),
{
    if txs.len() == 0 {
        c
    } else {
        let before = batch_catalog(c, txs.drop_last());
        if txs.last().graph@ == META_GRAPH@ {
            catalog_after(before, txs.last().effects.nodes@)
        } else {
            before
        }
    }
}

/// Every record of a batch can be replayed where it stands.
pub open spec fn all_replayable(
    s: StateView,
    c: Map<Iid, Seq<char>>,
    txs: Seq<SealedTx>,
) -> bool
    decreases txs.len(),
{
    txs.len() > 0 ==> all_replayable(s, c, txs.drop_last()) && (batch_applied(
        s,
        txs.drop_last(),
    ) matches Ok(s1) ==> s1.graphs.dom().contains(META_GRAPH@) && replayable(
        s1,
        batch_catalog(c, txs.drop_last()),
        txs.last(),
    ))
}

/// The state of a node that replays the records of a batch.
pub open spec fn batch_replayed(r: StateView, txs: Seq<SealedTx>) -> Result<StateView, ErrorView> {
    try_fold(txs, r, |s: StateView, tx: SealedTx| apply_record(s, record_of(tx)))
}

/// What was acknowledged survives: a node that replays the records of any number
/// of transactions, from the graphs that the writer began with, comes to the
/// graphs that the writer came to.
pub proof fn law_the_log_holds_everything(s: StateView, r: StateView, txs: Seq<SealedTx>)
    requires
        same_graphs(s, r),
        all_replayable(s, r.catalog, txs),
        batch_applied(s, txs) is Ok,
    ensures
        batch_replayed(r, txs) is Ok,
        same_graphs(batch_applied(s, txs)->Ok_0, batch_replayed(r, txs)->Ok_0),
        batch_replayed(r, txs)->Ok_0.catalog == batch_catalog(r.catalog, txs),
    decreases txs.len(),
{
    if txs.len() > 0 {
        let front = txs.drop_last();
        let tx = txs.last();
        assert(batch_applied(s, front) is Ok);
        law_the_log_holds_everything(s, r, front);
        let s1 = batch_applied(s, front)->Ok_0;
        let r1 = batch_replayed(r, front)->Ok_0;
        assert(batch_applied(s, txs) == tx_applied(s1, tx));
        assert(batch_replayed(r, txs) == apply_record(r1, record_of(tx)));
        if tx.graph@ == META_GRAPH@ {
            law_catalog_changes_come_back(s1, r1, tx);
        } else {
            law_replay_follows_the_writer(s1, r1, tx);
        }
    }
}

/// No transaction of a batch makes or drops this graph.
pub open spec fn graph_stays(txs: Seq<SealedTx>, graph: Seq<char>) -> bool {
    forall|i: int, k: int|
        0 <= i < txs.len() && 0 <= k < txs[i].effects.catalog_ops@.len()
            ==> (#[trigger] txs[i].effects.catalog_ops@[k])@ != CatalogOpView::CreateGraph(graph)
            && txs[i].effects.catalog_ops@[k]@ != CatalogOpView::DropGraph(graph)
}

/// One table holds all that another holds, and maybe more that came later.
pub open spec fn extends(a: TableView, b: TableView) -> bool {
    &&& a.nodes.live.len() <= b.nodes.live.len()
    &&& b.nodes.live.subrange(0, a.nodes.live.len() as int) == a.nodes.live
    &&& a.edges.live.len() <= b.edges.live.len()
    &&& b.edges.live.subrange(0, a.edges.live.len() as int) == a.edges.live
    &&& a.nodes.sealed == b.nodes.sealed && a.nodes.tries == b.nodes.tries
    &&& a.edges.sealed == b.edges.sealed && a.edges.tries == b.edges.tries
}

proof fn lemma_extends_trans(a: TableView, b: TableView, c: TableView)
    requires
        extends(a, b),
        extends(b, c),
    ensures
        extends(a, c),
{
    let n = a.nodes.live.len() as int;
    let e = a.edges.live.len() as int;
    assert(c.nodes.live.subrange(0, n) =~= b.nodes.live.subrange(0, n)) by {
        assert forall|i: int| 0 <= i < n implies c.nodes.live[i] == b.nodes.live[i] by {
            assert(c.nodes.live.subrange(0, b.nodes.live.len() as int)[i] == b.nodes.live[i]);
        }
    }
    assert(c.edges.live.subrange(0, e) =~= b.edges.live.subrange(0, e)) by {
        assert forall|i: int| 0 <= i < e implies c.edges.live[i] == b.edges.live[i] by {
            assert(c.edges.live.subrange(0, b.edges.live.len() as int)[i] == b.edges.live[i]);
        }
    }
}

proof fn lemma_with_events_extends(
    s: StateView,
    graph: Seq<char>,
    kind: TableKind,
    events: Seq<Event>,
    h: Seq<char>,
)
    requires
        s.graphs.dom().contains(graph),
        s.graphs.dom().contains(h),
    ensures
        extends(s.graphs[h], with_events(s, graph, kind, events).graphs[h]),
{
    let a = s.graphs[h];
    let b = with_events(s, graph, kind, events).graphs[h];
    assert(b.nodes.live.subrange(0, a.nodes.live.len() as int) =~= a.nodes.live);
    assert(b.edges.live.subrange(0, a.edges.live.len() as int) =~= a.edges.live);
}

proof fn lemma_ops_keep(s: StateView, ops: Seq<CatalogOpView>, graph: Seq<char>)
    requires
        s.graphs.dom().contains(graph),
        forall|k: int|
            0 <= k < ops.len() ==> #[trigger] ops[k] != CatalogOpView::CreateGraph(graph)
                && ops[k] != CatalogOpView::DropGraph(graph),
    ensures
        ops_applied(s, ops).graphs.dom().contains(graph),
        ops_applied(s, ops).graphs[graph] == s.graphs[graph],
    decreases ops.len(),
{
    if ops.len() > 0 {
        let front = ops.drop_last();
        assert forall|k: int| 0 <= k < front.len() implies #[trigger] front[k]
            != CatalogOpView::CreateGraph(graph) && front[k] != CatalogOpView::DropGraph(graph) by {
            assert(front[k] == ops[k]);
        }
        lemma_ops_keep(s, front, graph);
        assert(ops.last() == ops[ops.len() - 1]);
        assert(ops_applied(s, ops) == op_applied(ops_applied(s, front), ops.last()));
    }
}

/// The state after the events of a transaction, once its changes of the catalog
/// are made.
proof fn lemma_tx_events(s: StateView, tx: SealedTx, h: Seq<char>)
    requires
        tx_applied(s, tx) is Ok,
        ops_applied(s, views(tx.effects.catalog_ops@)).graphs.dom().contains(h),
    ensures
        ({
            let s1 = ops_applied(s, views(tx.effects.catalog_ops@));
            let s3 = tx_applied(s, tx)->Ok_0;
            &&& s1.graphs.dom().contains(tx.graph@)
            &&& s3.graphs.dom() == s1.graphs.dom()
            &&& extends(s1.graphs[h], s3.graphs[h])
            &&& s3.graphs[tx.graph@].nodes.live == s1.graphs[tx.graph@].nodes.live
                + tx.effects.nodes@
            &&& s3.graphs[tx.graph@].edges.live == s1.graphs[tx.graph@].edges.live
                + tx.effects.edges@
        }),
{
    let g = tx.graph@;
    let s1 = ops_applied(s, views(tx.effects.catalog_ops@));
    lemma_events_applied(s1, g, TableKind::Nodes, tx.effects.nodes@);
    let s2 = with_events(s1, g, TableKind::Nodes, tx.effects.nodes@);
    lemma_events_applied(s2, g, TableKind::Edges, tx.effects.edges@);
    let s3 = with_events(s2, g, TableKind::Edges, tx.effects.edges@);
    assert(s2.graphs.dom() =~= s1.graphs.dom());
    assert(s3.graphs.dom() =~= s1.graphs.dom());
    lemma_with_events_extends(s1, g, TableKind::Nodes, tx.effects.nodes@, h);
    lemma_with_events_extends(s2, g, TableKind::Edges, tx.effects.edges@, h);
    lemma_extends_trans(s1.graphs[h], s2.graphs[h], s3.graphs[h]);
}

proof fn lemma_batch_keeps(s: StateView, txs: Seq<SealedTx>, graph: Seq<char>)
    requires
        batch_applied(s, txs) is Ok,
        s.graphs.dom().contains(graph),
        graph_stays(txs, graph),
    ensures
        batch_applied(s, txs)->Ok_0.graphs.dom().contains(graph),
        extends(s.graphs[graph], batch_applied(s, txs)->Ok_0.graphs[graph]),
    decreases txs.len(),
{
    if txs.len() == 0 {
        assert(s.graphs[graph].nodes.live.subrange(
            0,
            s.graphs[graph].nodes.live.len() as int,
        ) =~= s.graphs[graph].nodes.live);
        assert(s.graphs[graph].edges.live.subrange(
            0,
            s.graphs[graph].edges.live.len() as int,
        ) =~= s.graphs[graph].edges.live);
    } else {
        let front = txs.drop_last();
        let tx = txs.last();
        assert(graph_stays(front, graph)) by {
            assert forall|i: int, k: int|
                0 <= i < front.len() && 0 <= k < front[i].effects.catalog_ops@.len() implies (
            #[trigger] front[i].effects.catalog_ops@[k])@ != CatalogOpView::CreateGraph(graph)
                && front[i].effects.catalog_ops@[k]@ != CatalogOpView::DropGraph(graph) by {
                assert(txs[i].effects.catalog_ops@[k]@ != CatalogOpView::CreateGraph(graph));
            }
        }
        lemma_batch_keeps(s, front, graph);
        let s1 = batch_applied(s, front)->Ok_0;
        assert(batch_applied(s, txs) == tx_applied(s1, tx));
        lemma_tx_keeps(s1, txs, tx, graph);
        let s2 = tx_applied(s1, tx)->Ok_0;
        lemma_extends_trans(s.graphs[graph], s1.graphs[graph], s2.graphs[graph]);
    }
}

proof fn lemma_tx_keeps(s: StateView, txs: Seq<SealedTx>, tx: SealedTx, graph: Seq<char>)
    requires
        txs.len() > 0,
        txs.last() == tx,
        tx_applied(s, tx) is Ok,
        s.graphs.dom().contains(graph),
        graph_stays(txs, graph),
    ensures
        tx_applied(s, tx)->Ok_0.graphs.dom().contains(graph),
        extends(s.graphs[graph], tx_applied(s, tx)->Ok_0.graphs[graph]),
{
    let ops = views(tx.effects.catalog_ops@);
    assert forall|k: int| 0 <= k < ops.len() implies #[trigger] ops[k]
        != CatalogOpView::CreateGraph(graph) && ops[k] != CatalogOpView::DropGraph(graph) by {
        let last = txs.len() - 1;
        assert(txs[last].effects.catalog_ops@[k]@ != CatalogOpView::CreateGraph(graph));
    }
    lemma_ops_keep(s, ops, graph);
    lemma_tx_events(s, tx, graph);
}

/// What is acknowledged can be seen: once a batch is applied, the events of each
/// of its transactions are in the tails of its graph, unless the graph was
/// dropped or made anew later in the batch.
pub proof fn law_acknowledged_is_visible(s: StateView, txs: Seq<SealedTx>, i: int)
    requires
        batch_applied(s, txs) is Ok,
        0 <= i < txs.len(),
        graph_stays(txs.subrange(i + 1, txs.len() as int), txs[i].graph@),
    ensures
        ({
            let s2 = batch_applied(s, txs)->Ok_0;
            let g = txs[i].graph@;
            &&& s2.graphs.dom().contains(g)
            &&& forall|k: int|
                0 <= k < txs[i].effects.nodes@.len() ==> s2.graphs[g].nodes.live.contains(
                    #[trigger] txs[i].effects.nodes@[k],
                )
            &&& forall|k: int|
                0 <= k < txs[i].effects.edges@.len() ==> s2.graphs[g].edges.live.contains(
                    #[trigger] txs[i].effects.edges@[k],
                )
        }),
    decreases txs.len(),
{
    let g = txs[i].graph@;
    let front = txs.drop_last();
    let tx = txs.last();
    assert(batch_applied(s, front) is Ok);
    let s1 = batch_applied(s, front)->Ok_0;
    assert(batch_applied(s, txs) == tx_applied(s1, tx));
    let s2 = tx_applied(s1, tx)->Ok_0;
    if i == txs.len() - 1 {
        let ops = views(tx.effects.catalog_ops@);
        lemma_tx_events(s1, tx, g);
        let at = ops_applied(s1, ops).graphs[g];
        let nodes = tx.effects.nodes@;
        let edges = tx.effects.edges@;
        assert forall|k: int| 0 <= k < nodes.len() implies s2.graphs[g].nodes.live.contains(
            #[trigger] nodes[k],
        ) by {
            assert(s2.graphs[g].nodes.live[at.nodes.live.len() + k] == nodes[k]);
        }
        assert forall|k: int| 0 <= k < edges.len() implies s2.graphs[g].edges.live.contains(
            #[trigger] edges[k],
        ) by {
            assert(s2.graphs[g].edges.live[at.edges.live.len() + k] == edges[k]);
        }
    } else {
        let rest = txs.subrange(i + 1, txs.len() as int);
        let shorter = front.subrange(i + 1, front.len() as int);
        assert(shorter =~= rest.drop_last());
        assert(graph_stays(shorter, g)) by {
            assert forall|j: int, k: int|
                0 <= j < shorter.len() && 0 <= k < shorter[j].effects.catalog_ops@.len() implies (
            #[trigger] shorter[j].effects.catalog_ops@[k])@ != CatalogOpView::CreateGraph(g)
                && shorter[j].effects.catalog_ops@[k]@ != CatalogOpView::DropGraph(g) by {
                assert(shorter[j] == rest[j]);
                assert(rest[j].effects.catalog_ops@[k]@ != CatalogOpView::CreateGraph(g));
            }
        }
        assert(front[i] == txs[i]);
        law_acknowledged_is_visible(s, front, i);
        assert(rest.last() == tx);
        lemma_tx_keeps(s1, rest, tx, g);
        let a = s1.graphs[g];
        let b = s2.graphs[g];
        let nodes = txs[i].effects.nodes@;
        let edges = txs[i].effects.edges@;
        assert forall|k: int| 0 <= k < nodes.len() implies b.nodes.live.contains(
            #[trigger] nodes[k],
        ) by {
            assert(a.nodes.live.contains(front[i].effects.nodes@[k]));
            let j = a.nodes.live.index_of(nodes[k]);
            assert(b.nodes.live.subrange(0, a.nodes.live.len() as int)[j] == nodes[k]);
            assert(b.nodes.live[j] == nodes[k]);
        }
        assert forall|k: int| 0 <= k < edges.len() implies b.edges.live.contains(
            #[trigger] edges[k],
        ) by {
            assert(a.edges.live.contains(front[i].effects.edges@[k]));
            let j = a.edges.live.index_of(edges[k]);
            assert(b.edges.live.subrange(0, a.edges.live.len() as int)[j] == edges[k]);
            assert(b.edges.live[j] == edges[k]);
        }
    }
}

} // verus!
