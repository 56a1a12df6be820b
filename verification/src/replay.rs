//! Applying the records of the log to the state.

use crate::error::{EngineError, ErrorView, IndexError, IndexErrorView};
use crate::event::{events_wf, Event, Op};
use crate::fold::{
    lemma_try_fold_all, lemma_try_fold_fails, lemma_try_fold_step, try_fold,
};
use crate::security::SECURITY_GRAPH;
use crate::sorted::{lemma_sorted_domain, SortedMap};
use crate::state::{
    appended, last_time, law_appending_changes_one_tail, state_appended, wrapped, GraphsState,
    StateView, TableKind, TableView, DEFAULT_GRAPH, EDGES_TABLE, META_GRAPH, NODES_TABLE,
};
use crate::text::{contains_text, text_is, views};
use crate::types::{Iid, Instant, Value, ValueView};
use vstd::prelude::*;

verus! {

/// The effects of a record on one table, as they stand in the log: the events,
/// or the text of the failure to decode them.
#[derive(Debug)]
pub struct RawTableEffects {
    pub graph: String,
    pub table: String,
    pub events: Result<Vec<Event>, String>,
}

/// One record of the log.
#[derive(Debug)]
pub struct RawLogRecord {
    pub tx_id: u64,
    pub system_time_us: i64,
    pub effects: Vec<RawTableEffects>,
}

/// The effects of a record on one table.
#[derive(Debug)]
pub struct DecodedTableEffects {
    pub graph: String,
    pub table: TableKind,
    pub events: Vec<Event>,
}

/// A record that can be applied.
#[derive(Debug)]
pub struct DecodedLogRecord {
    pub tx_id: u64,
    pub system_time: Instant,
    pub effects: Vec<DecodedTableEffects>,
}

#[verifier::ext_equal]
pub struct EffectView {
    pub graph: Seq<char>,
    pub table: TableKind,
    pub events: Seq<Event>,
}

impl View for DecodedTableEffects {
    type V = EffectView;

    open spec fn view(&self) -> EffectView {
        EffectView { graph: self.graph@, table: self.table, events: self.events@ }
    }
}

/// Every event of the effects is well formed.
pub open spec fn decoded_wf(effects: Seq<DecodedTableEffects>) -> bool {
    forall|i: int| 0 <= i < effects.len() ==> events_wf((#[trigger] effects[i]).events@)
}

/// Every event that could be decoded is well formed.
pub open spec fn raw_wf(effects: Seq<RawTableEffects>) -> bool {
    forall|i: int|
        0 <= i < effects.len() ==> ((#[trigger] effects[i]).events matches Ok(es) ==> events_wf(
            es@,
        ))
}

/// The effects on one table: of a known table, with no graph named meaning the
/// default graph.
pub open spec fn decode_effect(raw: RawTableEffects) -> Result<EffectView, ErrorView> {
    if raw.table@ != NODES_TABLE@ && raw.table@ != EDGES_TABLE@ {
        Err(ErrorView::UnknownTable(raw.table@))
    } else {
        match raw.events {
            Err(text) => Err(ErrorView::Index(IndexErrorView::Other(text@))),
            Ok(events) => Ok(
                EffectView {
                    graph: if raw.graph@.len() == 0 {
                        DEFAULT_GRAPH@
                    } else {
                        raw.graph@
                    },
                    table: if raw.table@ == NODES_TABLE@ {
                        TableKind::Nodes
                    } else {
                        TableKind::Edges
                    },
                    events: events@,
                },
            ),
        }
    }
}

/// The effects of a record: the first that cannot be read fails it.
pub open spec fn decode_effects(raw: Seq<RawTableEffects>) -> Result<Seq<EffectView>, ErrorView> {
    try_fold(
        raw,
        Seq::<EffectView>::empty(),
        |acc: Seq<EffectView>, r: RawTableEffects|
            match decode_effect(r) {
                Err(e) => Err(e),
                Ok(v) => Ok(acc.push(v)),
            },
    )
}

/// Reads a record. A table that is not known, or events that could not be
/// decoded, fail the whole record.
pub fn decode_log_record(record: RawLogRecord) -> (r: Result<DecodedLogRecord, EngineError>)
    requires
        raw_wf(record.effects@),
    ensures
        match r {
            Ok(d) => {
                &&& decoded_wf(d.effects@)
                &&& d.tx_id == record.tx_id
                &&& d.system_time.us == record.system_time_us
                &&& decode_effects(record.effects@) == Ok::<Seq<EffectView>, ErrorView>(
                    views(d.effects@),
                )
            },
            Err(e) => decode_effects(record.effects@) == Err::<Seq<EffectView>, ErrorView>(e@),
        },
{
    let ghost raw = record.effects@;
    let ghost none = Seq::<EffectView>::empty();
    let ghost step = |acc: Seq<EffectView>, r: RawTableEffects|
        match decode_effect(r) {
            Err(e) => Err(e),
            Ok(v) => Ok(acc.push(v)),
        };
    let mut effects: Vec<DecodedTableEffects> = Vec::new();
    proof {
        lemma_try_fold_all(raw, none, step);
        assert(views(effects@) =~= none);
    }
    for effect in it: record.effects
        invariant
            it.seq() == raw,
            raw_wf(raw),
            decoded_wf(effects@),
            none == Seq::<EffectView>::empty(),
            step == (|acc: Seq<EffectView>, r: RawTableEffects|
                match decode_effect(r) {
                    Err(e) => Err(e),
                    Ok(v) => Ok(acc.push(v)),
                }),
            raw == record.effects@,
            try_fold(raw.subrange(0, it.index() as int), none, step) == Ok::<
                Seq<EffectView>,
                ErrorView,
            >(views(effects@)),
    {
        let ghost i = it.index() as int;
        proof {
            assert(raw[i] == effect);
            lemma_try_fold_step(raw, none, step, i);
            if try_fold(raw.subrange(0, i + 1), none, step) is Err {
                lemma_try_fold_fails(raw, none, step, i + 1);
            }
        }
        let table = if text_is(&effect.table, NODES_TABLE) {
            TableKind::Nodes
        } else if text_is(&effect.table, EDGES_TABLE) {
            TableKind::Edges
        } else {
            return Err(EngineError::UnknownTable(effect.table));
        };
        let events = match effect.events {
            Ok(events) => events,
            Err(text) => {
                return Err(EngineError::Index(IndexError::Other(text)));
            },
        };
        let graph = if effect.graph.as_str().is_empty() {
            DEFAULT_GRAPH.to_owned()
        } else {
            effect.graph
        };
        let decoded = DecodedTableEffects { graph, table, events };
        proof {
            crate::text::lemma_views_push(effects@, decoded);
        }
        effects.push(decoded);
    }
    proof {
        lemma_try_fold_all(raw, none, step);
    }
    Ok(
        DecodedLogRecord {
            tx_id: record.tx_id,
            system_time: Instant::from_micros(record.system_time_us),
            effects,
        },
    )
}

/// What an event of the catalog does to the list of graphs.
pub enum CatalogMutationView {
    Put { iid: Iid, name: Seq<char> },
    Remove { iid: Iid },
    Nothing,
}

/// A put of a graph node names a graph, unless the name is reserved; a deletion
/// or an erasure takes back what its node named.
pub open spec fn catalog_mutation_spec(e: Event) -> CatalogMutationView {
    match e.op {
        Op::Put { labels, doc } => if views(labels@).contains("Graph"@) {
            if doc@.dom().contains("_id"@) && doc@["_id"@] is Str && doc@["_id"@]->Str_0
                != DEFAULT_GRAPH@ && doc@["_id"@]->Str_0 != META_GRAPH@ {
                CatalogMutationView::Put { iid: e.iid, name: doc@["_id"@]->Str_0 }
            } else {
                CatalogMutationView::Nothing
            }
        } else {
            CatalogMutationView::Nothing
        },
        Op::Delete => CatalogMutationView::Remove { iid: e.iid },
        Op::Erase => CatalogMutationView::Remove { iid: e.iid },
    }
}

enum CatalogMutation {
    Put { iid: Iid, name: String },
    Remove { iid: Iid },
    Nothing,
}

fn catalog_mutation(e: &Event) -> (r: CatalogMutation)
    requires
        e.wf(),
    ensures
        match r {
            CatalogMutation::Put { iid, name } => catalog_mutation_spec(*e) == (
            CatalogMutationView::Put { iid, name: name@ }),
            CatalogMutation::Remove { iid } => catalog_mutation_spec(*e) == (
            CatalogMutationView::Remove { iid }),
            CatalogMutation::Nothing => catalog_mutation_spec(*e) is Nothing,
        },
{
    match &e.op {
        Op::Put { labels, doc } => {
            if !contains_text(labels, "Graph") {
                return CatalogMutation::Nothing;
            }
            match doc.get("_id") {
                Some(Value::Str(name)) => if text_is(name, DEFAULT_GRAPH) || text_is(
                    name,
                    META_GRAPH,
                ) {
                    CatalogMutation::Nothing
                } else {
                    CatalogMutation::Put { iid: e.iid, name: name.clone() }
                },
                _ => CatalogMutation::Nothing,
            }
        },
        Op::Delete => CatalogMutation::Remove { iid: e.iid },
        Op::Erase => CatalogMutation::Remove { iid: e.iid },
    }
}

/// The state after an event of the catalog.
pub open spec fn catalog_step(s: StateView, e: Event) -> StateView {
    match catalog_mutation_spec(e) {
        CatalogMutationView::Put { iid, name } => StateView {
            catalog: s.catalog.insert(iid, name),
            graphs: if s.graphs.dom().contains(name) {
                s.graphs
            } else {
                s.graphs.insert(name, TableView::empty())
            },
            ..s
        },
        CatalogMutationView::Remove { iid } => if s.catalog.dom().contains(iid) {
            StateView {
                catalog: s.catalog.remove(iid),
                graphs: s.graphs.remove(s.catalog[iid]),
                ..s
            }
        } else {
            s
        },
        CatalogMutationView::Nothing => s,
    }
}

/// Applies an event of the catalog to the list of graphs.
pub fn apply_catalog_event(state: &mut GraphsState, event: &Event)
    requires
        old(state).wf(),
        event.wf(),
    ensures
        final(state).wf(),
        final(state)@ == catalog_step(old(state)@, *event),
{
    let ghost before = state@;
    match catalog_mutation(event) {
        CatalogMutation::Put { iid, name } => {
            if !state.has_graph(name.as_str()) {
                state.insert_graph(name.clone());
            }
            let ghost map = state.catalog_graphs@;
            let ghost graphs_now = state@.graphs;
            state.catalog_graphs.insert(iid, name);
            assert(state@.catalog =~= before.catalog.insert(iid, name@));
            assert(state@.graphs == graphs_now);
        },
        CatalogMutation::Remove { iid } => {
            match state.catalog_graphs.remove(&iid) {
                Some(name) => {
                    assert(before.catalog.dom().contains(iid) && before.catalog[iid] == name@);
                    assert(state@.catalog =~= before.catalog.remove(iid));
                    state.remove_graph(name.as_str());
                },
                None => {
                    assert(state@.catalog =~= before.catalog);
                },
            }
        },
        CatalogMutation::Nothing => {},
    }
}

/// The state after one event of an effect on a table of a graph.
pub open spec fn apply_event(
    s: StateView,
    graph: Seq<char>,
    table: TableKind,
    e: Event,
) -> Result<StateView, ErrorView> {
    let s1 = if graph == META_GRAPH@ && table == TableKind::Nodes {
        catalog_step(s, e)
    } else {
        s
    };
    state_appended(s1, graph, table, e)
}

/// The state after an effect: its graph must be there, and its events must
/// follow in time. An effect on the policy graph changes the policy's number.
pub open spec fn apply_effect(s: StateView, eff: EffectView) -> Result<StateView, ErrorView> {
    if !s.graphs.dom().contains(eff.graph) {
        Err(ErrorView::UnknownGraph(eff.graph))
    } else {
        match try_fold(
            eff.events,
            s,
            |s: StateView, e: Event| apply_event(s, eff.graph, eff.table, e),
        ) {
            Err(e) => Err(e),
            Ok(s) => Ok(
                if eff.graph == SECURITY_GRAPH@ && eff.events.len() > 0 {
                    StateView { security_epoch: wrapped(s.security_epoch as int, 1), ..s }
                } else {
                    s
                },
            ),
        }
    }
}

/// The state after a record: after its effects in turn.
pub open spec fn apply_record(s: StateView, effects: Seq<EffectView>) -> Result<
    StateView,
    ErrorView,
> {
    try_fold(effects, s, |s: StateView, eff: EffectView| apply_effect(s, eff))
}

/// The system time of the last event of each tail of a graph.
#[derive(Clone, Copy, Debug, PartialEq, Eq, Structural)]
pub struct Lasts {
    pub nodes: Option<Instant>,
    pub edges: Option<Instant>,
}

impl Lasts {
    pub open spec fn of(self, kind: TableKind) -> Option<Instant> {
        match kind {
            TableKind::Nodes => self.nodes,
            TableKind::Edges => self.edges,
        }
    }

    pub open spec fn with(self, kind: TableKind, t: Instant) -> Lasts {
        match kind {
            TableKind::Nodes => Lasts { nodes: Some(t), ..self },
            TableKind::Edges => Lasts { edges: Some(t), ..self },
        }
    }
}

/// What decides whether a record can be applied.
#[verifier::ext_equal]
pub struct Projection {
    pub graphs: Map<Seq<char>, Lasts>,
    pub catalog: Map<Iid, Seq<char>>,
}

pub open spec fn table_lasts(t: TableView) -> Lasts {
    Lasts { nodes: last_time(t.nodes.live), edges: last_time(t.edges.live) }
}

pub open spec fn projection(s: StateView) -> Projection {
    Projection {
        graphs: s.graphs.map_values(|t: TableView| table_lasts(t)),
        catalog: s.catalog,
    }
}

pub open spec fn project_catalog(p: Projection, e: Event) -> Projection {
    match catalog_mutation_spec(e) {
        CatalogMutationView::Put { iid, name } => Projection {
            catalog: p.catalog.insert(iid, name),
            graphs: if p.graphs.dom().contains(name) {
                p.graphs
            } else {
                p.graphs.insert(name, Lasts { nodes: None, edges: None })
            },
        },
        CatalogMutationView::Remove { iid } => if p.catalog.dom().contains(iid) {
            Projection {
                catalog: p.catalog.remove(iid),
                graphs: p.graphs.remove(p.catalog[iid]),
            }
        } else {
            p
        },
        CatalogMutationView::Nothing => p,
    }
}

pub open spec fn project_event(
    p: Projection,
    graph: Seq<char>,
    table: TableKind,
    e: Event,
) -> Result<Projection, ErrorView> {
    let p1 = if graph == META_GRAPH@ && table == TableKind::Nodes {
        project_catalog(p, e)
    } else {
        p
    };
    if !p1.graphs.dom().contains(graph) {
        Err(ErrorView::UnknownGraph(graph))
    } else {
        match p1.graphs[graph].of(table) {
            Some(last) => if e.system_from.us < last.us {
                Err(
                    ErrorView::Index(
                        IndexErrorView::OutOfOrderEvent { last, got: e.system_from },
                    ),
                )
            } else {
                Ok(
                    Projection {
                        graphs: p1.graphs.insert(
                            graph,
                            p1.graphs[graph].with(table, e.system_from),
                        ),
                        ..p1
                    },
                )
            },
            None => Ok(
                Projection {
                    graphs: p1.graphs.insert(graph, p1.graphs[graph].with(table, e.system_from)),
                    ..p1
                },
            ),
        }
    }
}

pub open spec fn project_effect(p: Projection, eff: EffectView) -> Result<Projection, ErrorView> {
    if !p.graphs.dom().contains(eff.graph) {
        Err(ErrorView::UnknownGraph(eff.graph))
    } else {
        try_fold(
            eff.events,
            p,
            |p: Projection, e: Event| project_event(p, eff.graph, eff.table, e),
        )
    }
}

pub open spec fn project_record(p: Projection, effects: Seq<EffectView>) -> Result<
    Projection,
    ErrorView,
> {
    try_fold(effects, p, |p: Projection, eff: EffectView| project_effect(p, eff))
}

/// A projected step stands for the step: it fails in the same way, or leads to
/// the projection of where the step leads.
pub open spec fn same_step(a: Result<StateView, ErrorView>, b: Result<Projection, ErrorView>) -> bool {
    match a {
        Ok(s) => b == Ok::<Projection, ErrorView>(projection(s)),
        Err(e) => b == Err::<Projection, ErrorView>(e),
    }
}

proof fn lemma_project_event(s: StateView, graph: Seq<char>, table: TableKind, e: Event)
    ensures
        same_step(
            apply_event(s, graph, table, e),
            project_event(projection(s), graph, table, e),
        ),
{
    let s1 = if graph == META_GRAPH@ && table == TableKind::Nodes {
        catalog_step(s, e)
    } else {
        s
    };
    let p = projection(s);
    let p1 = if graph == META_GRAPH@ && table == TableKind::Nodes {
        project_catalog(p, e)
    } else {
        p
    };
    assert(projection(s1) =~= p1) by {
        assert(table_lasts(TableView::empty()) == (Lasts { nodes: None, edges: None }));
        assert(projection(s1).graphs =~= p1.graphs);
        assert(projection(s1).catalog =~= p1.catalog);
    }
    if s1.graphs.dom().contains(graph) {
        let t = s1.graphs[graph];
        assert(p1.graphs[graph] == table_lasts(t));
        assert(p1.graphs[graph].of(table) == last_time(t.table(table).live));
        match appended(t.table(table).live, e) {
            Ok(live) => {
                assert(live == t.table(table).live.push(e));
                let t2 = t.with_live(table, live);
                assert(table_lasts(t2) == table_lasts(t).with(table, e.system_from));
                let s2 = StateView { graphs: s1.graphs.insert(graph, t2), ..s1 };
                assert(projection(s2).graphs =~= p1.graphs.insert(
                    graph,
                    p1.graphs[graph].with(table, e.system_from),
                ));
            },
            Err(_) => {},
        }
    }
}

proof fn lemma_project_events(
    s: StateView,
    graph: Seq<char>,
    table: TableKind,
    events: Seq<Event>,
)
    ensures
        same_step(
            try_fold(events, s, |s: StateView, e: Event| apply_event(s, graph, table, e)),
            try_fold(
                events,
                projection(s),
                |p: Projection, e: Event| project_event(p, graph, table, e),
            ),
        ),
    decreases events.len(),
{
    if events.len() > 0 {
        lemma_project_events(s, graph, table, events.drop_last());
        match try_fold(
            events.drop_last(),
            s,
            |s: StateView, e: Event| apply_event(s, graph, table, e),
        ) {
            Ok(s1) => lemma_project_event(s1, graph, table, events.last()),
            Err(_) => {},
        }
    }
}

/// A record can be applied exactly when its projection can, and fails in the
/// same way.
pub proof fn lemma_project_record(s: StateView, effects: Seq<EffectView>)
    ensures
        same_step(apply_record(s, effects), project_record(projection(s), effects)),
    decreases effects.len(),
{
    if effects.len() > 0 {
        lemma_project_record(s, effects.drop_last());
        match apply_record(s, effects.drop_last()) {
            Ok(s1) => {
                let eff = effects.last();
                lemma_project_events(s1, eff.graph, eff.table, eff.events);
                let done = try_fold(
                    eff.events,
                    s1,
                    |s: StateView, e: Event| apply_event(s, eff.graph, eff.table, e),
                );
                if done is Ok {
                    let s2 = done->Ok_0;
                    assert(projection(
                        StateView {
                            security_epoch: wrapped(s2.security_epoch as int, 1),
                            ..s2
                        },
                    ) =~= projection(s2));
                }
            },
            Err(_) => {},
        }
    }
}

struct Shadow {
    graphs: SortedMap<String, Lasts>,
    catalog: SortedMap<Iid, String>,
}

impl Shadow {
    spec fn wf(&self) -> bool {
        self.graphs.wf() && self.catalog.wf()
    }

    spec fn proj(&self) -> Projection {
        Projection { graphs: self.graphs@, catalog: self.catalog@.map_values(|n: String| n@) }
    }

    fn of(state: &GraphsState) -> (r: Shadow)
        requires
            state.wf(),
        ensures
            r.wf(),
            r.proj() == projection(state@),
    {
        let mut graphs: SortedMap<String, Lasts> = SortedMap::new();
        let n = state.graphs.len();
        let ghost keys = state.graphs.keys();
        let ghost want = projection(state@);
        let mut i: usize = 0;
        proof {
            lemma_sorted_domain(state.graphs);
            lemma_sorted_domain(state.catalog_graphs);
        }
        while i < n
            invariant
                i <= n,
                n == keys.len(),
                keys == state.graphs.keys(),
                want == projection(state@),
                graphs.wf(),
                state.graphs@.dom() == keys.to_set(),
                forall|k: int|
                    0 <= k < keys.len() ==> state.graphs@.dom().contains(#[trigger] keys[k])
                        && state.graphs@[keys[k]] == state.graphs.values()[k],
                forall|g: Seq<char>| #[trigger]
                    graphs@.dom().contains(g) ==> want.graphs.dom().contains(g) && graphs@[g]
                        == want.graphs[g],
                forall|k: int| 0 <= k < i ==> graphs@.dom().contains(#[trigger] keys[k]),
            decreases n - i,
        {
            let t = state.graphs.value_at(i);
            proof {
                assert(state.graphs@.dom().contains(keys[i as int]));
                assert(want.graphs[keys[i as int]] == table_lasts(t@));
            }
            graphs.insert(
                state.graphs.key_at(i).clone(),
                Lasts {
                    nodes: t.nodes.live.last_system_from(),
                    edges: t.edges.live.last_system_from(),
                },
            );
            i += 1;
        }
        assert(graphs@ =~= want.graphs) by {
            assert forall|g: Seq<char>| want.graphs.dom().contains(g) implies graphs@.dom().contains(g) by {
                let j = keys.index_of(g);
                assert(keys[j] == g);
            }
        }
        let mut catalog: SortedMap<Iid, String> = SortedMap::new();
        let m = state.catalog_graphs.len();
        let ghost iids = state.catalog_graphs.keys();
        let mut k: usize = 0;
        while k < m
            invariant
                k <= m,
                m == iids.len(),
                iids == state.catalog_graphs.keys(),
                want == projection(state@),
                catalog.wf(),
                state.catalog_graphs@.dom() == iids.to_set(),
                forall|j: int|
                    0 <= j < iids.len() ==> state.catalog_graphs@.dom().contains(
                        #[trigger] iids[j],
                    ) && state.catalog_graphs@[iids[j]] == state.catalog_graphs.values()[j],
                forall|x: Iid| #[trigger]
                    catalog@.dom().contains(x) ==> want.catalog.dom().contains(x) && catalog@[x]@
                        == want.catalog[x],
                forall|j: int| 0 <= j < k ==> catalog@.dom().contains(#[trigger] iids[j]),
            decreases m - k,
        {
            proof {
                assert(state.catalog_graphs@.dom().contains(iids[k as int]));
            }
            catalog.insert(
                *state.catalog_graphs.key_at(k),
                state.catalog_graphs.value_at(k).clone(),
            );
            k += 1;
        }
        let r = Shadow { graphs, catalog };
        assert(r.proj().catalog =~= want.catalog) by {
            assert forall|x: Iid| want.catalog.dom().contains(x) implies r.proj().catalog.dom().contains(x) by {
                let j = iids.index_of(x);
                assert(iids[j] == x);
            }
        }
        r
    }

    fn project_catalog_event(&mut self, event: &Event)
        requires
            old(self).wf(),
            event.wf(),
        ensures
            final(self).wf(),
            final(self).proj() == project_catalog(old(self).proj(), *event),
    {
        let ghost before = self.proj();
        match catalog_mutation(event) {
            CatalogMutation::Put { iid, name } => {
                if !self.graphs.contains_key(&name) {
                    self.graphs.insert(name.clone(), Lasts { nodes: None, edges: None });
                }
                self.catalog.insert(iid, name);
                assert(self.proj().catalog =~= before.catalog.insert(iid, name@));
                assert(self.proj() =~= project_catalog(before, *event));
            },
            CatalogMutation::Remove { iid } => {
                match self.catalog.remove(&iid) {
                    Some(name) => {
                        assert(before.catalog[iid] == name@);
                        self.graphs.remove(&name);
                        assert(self.proj().catalog =~= before.catalog.remove(iid));
                        assert(self.proj() =~= project_catalog(before, *event));
                    },
                    None => {
                        assert(self.proj().catalog =~= before.catalog);
                        assert(self.proj() =~= project_catalog(before, *event));
                    },
                }
            },
            CatalogMutation::Nothing => {},
        }
    }

    fn project_one(&mut self, graph: &String, table: TableKind, event: &Event) -> (r: Result<
        (),
        EngineError,
    >)
        requires
            old(self).wf(),
            event.wf(),
        ensures
            final(self).wf(),
            match r {
                Ok(()) => project_event(old(self).proj(), graph@, table, *event) == Ok::<
                    Projection,
                    ErrorView,
                >(final(self).proj()),
                Err(e) => project_event(old(self).proj(), graph@, table, *event) == Err::<
                    Projection,
                    ErrorView,
                >(e@),
            },
    {
        let meta = match table {
            TableKind::Nodes => text_is(graph, META_GRAPH),
            TableKind::Edges => false,
        };
        if meta {
            self.project_catalog_event(event);
        }
        let ghost p1 = self.proj();
        let lasts = match self.graphs.get(graph) {
            Some(l) => *l,
            None => {
                return Err(EngineError::UnknownGraph(graph.clone()));
            },
        };
        let last = match table {
            TableKind::Nodes => lasts.nodes,
            TableKind::Edges => lasts.edges,
        };
        match last {
            Some(last) => {
                if event.system_from.us < last.us {
                    return Err(
                        EngineError::Index(
                            IndexError::OutOfOrderEvent { last, got: event.system_from },
                        ),
                    );
                }
            },
            None => {},
        }
        let next = match table {
            TableKind::Nodes => Lasts { nodes: Some(event.system_from), ..lasts },
            TableKind::Edges => Lasts { edges: Some(event.system_from), ..lasts },
        };
        self.graphs.insert(graph.clone(), next);
        assert(self.proj() =~= (Projection {
            graphs: p1.graphs.insert(graph@, next),
            ..p1
        }));
        Ok(())
    }

    fn project_table(&mut self, effect: &DecodedTableEffects) -> (r: Result<(), EngineError>)
        requires
            old(self).wf(),
            events_wf(effect.events@),
        ensures
            final(self).wf(),
            match r {
                Ok(()) => project_effect(old(self).proj(), effect@) == Ok::<Projection, ErrorView>(
                    final(self).proj(),
                ),
                Err(e) => project_effect(old(self).proj(), effect@) == Err::<
                    Projection,
                    ErrorView,
                >(e@),
            },
    {
        if !self.graphs.contains_key(&effect.graph) {
            return Err(EngineError::UnknownGraph(effect.graph.clone()));
        }
        let ghost events = effect.events@;
        let ghost start = self.proj();
        let ghost step = |p: Projection, e: Event|
            project_event(p, effect@.graph, effect@.table, e);
        let mut i: usize = 0;
        proof {
            lemma_try_fold_all(events, start, step);
        }
        while i < effect.events.len()
            invariant
                i <= effect.events.len(),
                self.wf(),
                events == effect.events@,
                events_wf(events),
                start == old(self).proj(),
                start.graphs.dom().contains(effect@.graph),
                step == (|p: Projection, e: Event|
                    project_event(p, effect@.graph, effect@.table, e)),
                try_fold(events.subrange(0, i as int), start, step) == Ok::<Projection, ErrorView>(
                    self.proj(),
                ),
            decreases effect.events.len() - i,
        {
            proof {
                lemma_try_fold_step(events, start, step, i as int);
                if try_fold(events.subrange(0, i + 1), start, step) is Err {
                    lemma_try_fold_fails(events, start, step, i + 1);
                }
            }
            match self.project_one(&effect.graph, effect.table, &effect.events[i]) {
                Ok(()) => {},
                Err(e) => {
                    return Err(e);
                },
            }
            i += 1;
        }
        proof {
            lemma_try_fold_all(events, start, step);
        }
        Ok(())
    }
}

/// Whether a record can be applied, and if not, why.
pub fn validate_decoded_log_record(
    state: &GraphsState,
    effects: &Vec<DecodedTableEffects>,
) -> (r: Result<(), EngineError>)
    requires
        state.wf(),
        decoded_wf(effects@),
    ensures
        match r {
            Ok(()) => apply_record(state@, views(effects@)) is Ok,
            Err(e) => apply_record(state@, views(effects@)) == Err::<StateView, ErrorView>(e@),
        },
{
    let mut shadow = Shadow::of(state);
    let ghost all = views(effects@);
    let ghost start = projection(state@);
    let ghost step = |p: Projection, eff: EffectView| project_effect(p, eff);
    let mut i: usize = 0;
    proof {
        lemma_try_fold_all(all, start, step);
        lemma_project_record(state@, all);
    }
    while i < effects.len()
        invariant
            i <= effects.len(),
            shadow.wf(),
            decoded_wf(effects@),
            all == views(effects@),
            start == projection(state@),
            step == (|p: Projection, eff: EffectView| project_effect(p, eff)),
            same_step(apply_record(state@, all), project_record(start, all)),
            try_fold(all.subrange(0, i as int), start, step) == Ok::<Projection, ErrorView>(
                shadow.proj(),
            ),
        decreases effects.len() - i,
    {
        proof {
            lemma_try_fold_step(all, start, step, i as int);
            if try_fold(all.subrange(0, i + 1), start, step) is Err {
                lemma_try_fold_fails(all, start, step, i + 1);
            }
            assert(all[i as int] == effects@[i as int]@);
        }
        match shadow.project_table(&effects[i]) {
            Ok(()) => {},
            Err(e) => {
                return Err(e);
            },
        }
        i += 1;
    }
    proof {
        lemma_try_fold_all(all, start, step);
    }
    Ok(())
}

fn apply_table_effects(state: &mut GraphsState, effect: DecodedTableEffects) -> (r: Result<
    (),
    EngineError,
>)
    requires
        old(state).wf(),
        events_wf(effect.events@),
        apply_effect(old(state)@, effect@) is Ok,
    ensures
        r is Ok,
        final(state).wf(),
        apply_effect(old(state)@, effect@) == Ok::<StateView, ErrorView>(final(state)@),
{
    let ghost eff = effect@;
    let ghost events = effect.events@;
    let ghost start = state@;
    let ghost step = |s: StateView, e: Event| apply_event(s, eff.graph, eff.table, e);
    let graph = effect.graph;
    let table = effect.table;
    let some = effect.events.len() > 0;
    let meta = match table {
        TableKind::Nodes => text_is(&graph, META_GRAPH),
        TableKind::Edges => false,
    };
    proof {
        lemma_try_fold_all(events, start, step);
    }
    for event in it: effect.events
        invariant
            it.seq() == events,
            events_wf(events),
            state.wf(),
            eff.graph == graph@,
            eff.table == table,
            eff.events == events,
            start == old(state)@,
            meta == (graph@ == META_GRAPH@ && table == TableKind::Nodes),
            step == (|s: StateView, e: Event| apply_event(s, eff.graph, eff.table, e)),
            try_fold(events, start, step) is Ok,
            apply_effect(start, eff) is Ok,
            try_fold(events.subrange(0, it.index() as int), start, step) == Ok::<
                StateView,
                ErrorView,
            >(state@),
    {
        let ghost i = it.index() as int;
        proof {
            assert(events[i] == event);
            lemma_try_fold_step(events, start, step, i);
            if try_fold(events.subrange(0, i + 1), start, step) is Err {
                lemma_try_fold_fails(events, start, step, i + 1);
            }
        }
        if meta {
            apply_catalog_event(state, &event);
        }
        match state.append(graph.as_str(), table, event) {
            Ok(()) => {},
            Err(e) => {
                assert(false);
                return Err(e);
            },
        }
    }
    proof {
        lemma_try_fold_all(events, start, step);
    }
    if some && text_is(&graph, SECURITY_GRAPH) {
        state.security_epoch = state.security_epoch.wrapping_add(1);
    }
    Ok(())
}

/// Applies a record. Where any part of it cannot be applied, nothing is.
pub fn apply_decoded_log_record(state: &mut GraphsState, record: DecodedLogRecord) -> (r: Result<
    (),
    EngineError,
>)
    requires
        old(state).wf(),
        decoded_wf(record.effects@),
    ensures
        final(state).wf(),
        match r {
            Ok(()) => apply_record(old(state)@, views(record.effects@)) == Ok::<
                StateView,
                ErrorView,
            >(final(state)@),
            Err(e) => apply_record(old(state)@, views(record.effects@)) == Err::<
                StateView,
                ErrorView,
            >(e@) && final(state)@ == old(state)@,
        },
{
    match validate_decoded_log_record(state, &record.effects) {
        Ok(()) => {},
        Err(e) => {
            return Err(e);
        },
    }
    let ghost effects = record.effects@;
    let ghost all = views(record.effects@);
    let ghost start = state@;
    let ghost step = |s: StateView, eff: EffectView| apply_effect(s, eff);
    proof {
        lemma_try_fold_all(all, start, step);
    }
    for effect in it: record.effects
        invariant
            it.seq() == effects,
            decoded_wf(effects),
            state.wf(),
            all == views(effects),
            step == (|s: StateView, eff: EffectView| apply_effect(s, eff)),
            try_fold(all, start, step) is Ok,
            start == old(state)@,
            effects == record.effects@,
            try_fold(all.subrange(0, it.index() as int), start, step) == Ok::<
                StateView,
                ErrorView,
            >(state@),
    {
        let ghost i = it.index() as int;
        proof {
            assert(effects[i] == effect);
            assert(all[i] == effect@);
            lemma_try_fold_step(all, start, step, i);
            if try_fold(all.subrange(0, i + 1), start, step) is Err {
                lemma_try_fold_fails(all, start, step, i + 1);
            }
        }
        match apply_table_effects(state, effect) {
            Ok(()) => {},
            Err(e) => {
                return Err(e);
            },
        }
    }
    proof {
        lemma_try_fold_all(all, start, step);
    }
    Ok(())
}

/// A catalog node that names a graph makes the graph known: it is there
/// afterwards, as it was where it was there before, else empty. One that goes
/// takes its graph with it. No other graph changes.
pub proof fn law_the_catalog_makes_and_drops_graphs(s: StateView, e: Event)
    ensures
        ({
            let w = catalog_step(s, e);
            &&& w.security_epoch == s.security_epoch
            &&& w.scan_stats == s.scan_stats
            &&& (e.op matches Op::Put { labels, doc } ==> views(labels@).contains("Graph"@)
                ==> doc@.dom().contains("_id"@) ==> (doc@["_id"@] matches ValueView::Str(n) ==> n
                != "default"@ && n != "__meta"@ ==> {
                &&& w.catalog == s.catalog.insert(e.iid, n)
                &&& w.graphs.dom() == s.graphs.dom().insert(n)
                &&& (s.graphs.dom().contains(n) ==> w.graphs[n] == s.graphs[n])
                &&& (!s.graphs.dom().contains(n) ==> w.graphs[n].nodes.live.len() == 0
                    && w.graphs[n].edges.live.len() == 0 && w.graphs[n].nodes.tries.len() == 0
                    && w.graphs[n].edges.tries.len() == 0 && w.graphs[n].adj_out.len() == 0
                    && w.graphs[n].adj_in.len() == 0)
                &&& forall|x: Seq<char>| x != n ==> #[trigger] w.graphs[x] == s.graphs[x]
            }))
            &&& ((e.op is Delete || e.op is Erase) && s.catalog.dom().contains(e.iid) ==> {
                let n = s.catalog[e.iid];
                &&& w.catalog == s.catalog.remove(e.iid)
                &&& w.graphs == s.graphs.remove(n)
            })
            &&& ((e.op is Delete || e.op is Erase) && !s.catalog.dom().contains(e.iid) ==> w == s)
            &&& (e.op matches Op::Put { labels, .. } ==> !views(labels@).contains("Graph"@) ==> w
                == s)
        }),
{
    let w = catalog_step(s, e);
    match e.op {
        Op::Put { labels, doc } => {
            if views(labels@).contains("Graph"@) && doc@.dom().contains("_id"@) {
                match doc@["_id"@] {
                    ValueView::Str(n) => {
                        if n != "default"@ && n != "__meta"@ {
                            if s.graphs.dom().contains(n) {
                                assert(s.graphs.dom().insert(n) =~= s.graphs.dom());
                            }
                            assert(w.graphs.dom() =~= s.graphs.dom().insert(n));
                        }
                    },
                    _ => {},
                }
            }
        },
        _ => {},
    }
}

/// A record of the log is read as it stands: the graph that it names, or the
/// default one where it names none, the table that it names, and all its events
/// in order. A table that is not known is refused.
pub proof fn law_records_name_their_table(raw: RawTableEffects)
    ensures
        decode_effect(raw) matches Ok(v) ==> {
            &&& (raw.graph@.len() > 0 ==> v.graph == raw.graph@)
            &&& (raw.graph@.len() == 0 ==> v.graph == "default"@)
            &&& (v.table is Nodes <==> raw.table@ == "nodes"@)
            &&& (v.table is Edges ==> raw.table@ == "edges"@)
            &&& (raw.events matches Ok(es) && v.events == es@)
        },
        decode_effect(raw) is Ok <==> raw.events is Ok && (raw.table@ == "nodes"@ || raw.table@
            == "edges"@),
{
}

/// The events of an effect all stand at the end of the tail of the table that it
/// is for, in order, where the graph is not the catalog.
pub proof fn law_effects_are_taken_in_whole(
    s: StateView,
    graph: Seq<char>,
    table: TableKind,
    events: Seq<Event>,
)
    requires
        graph != "__meta"@,
        try_fold(events, s, |s: StateView, e: Event| apply_event(s, graph, table, e)) is Ok,
    ensures
        ({
            let w = try_fold(
                events,
                s,
                |s: StateView, e: Event| apply_event(s, graph, table, e),
            )->Ok_0;
            &&& w.graphs.dom() == s.graphs.dom()
            &&& w.catalog == s.catalog
            &&& w.security_epoch == s.security_epoch
            &&& forall|x: Seq<char>| x != graph ==> #[trigger] w.graphs[x] == s.graphs[x]
            &&& w.graphs[graph].nodes.live == if table is Nodes {
                s.graphs[graph].nodes.live + events
            } else {
                s.graphs[graph].nodes.live
            }
            &&& w.graphs[graph].edges.live == if table is Edges {
                s.graphs[graph].edges.live + events
            } else {
                s.graphs[graph].edges.live
            }
            &&& w.graphs[graph].nodes.tries == s.graphs[graph].nodes.tries
            &&& w.graphs[graph].edges.tries == s.graphs[graph].edges.tries
        }),
    decreases events.len(),
{
    let step = |s: StateView, e: Event| apply_event(s, graph, table, e);
    if events.len() == 0 {
        assert(s.graphs[graph].nodes.live + events =~= s.graphs[graph].nodes.live);
        assert(s.graphs[graph].edges.live + events =~= s.graphs[graph].edges.live);
    } else {
        let front = events.drop_last();
        let e = events.last();
        law_effects_are_taken_in_whole(s, graph, table, front);
        let v = try_fold(front, s, step)->Ok_0;
        law_appending_changes_one_tail(v, graph, table, e);
        let a = s.graphs[graph];
        assert((a.nodes.live + front).push(e) =~= a.nodes.live + events);
        assert((a.edges.live + front).push(e) =~= a.edges.live + events);
    }
}

/// What changes the policy changes its number, so that no privilege that was
/// resolved before counts any more; nothing else does.
pub proof fn law_policy_changes_are_noticed(s: StateView, eff: EffectView)
    requires
        apply_effect(s, eff) is Ok,
        eff.graph != "__meta"@,
        s.security_epoch < u64::MAX,
    ensures
        apply_effect(s, eff)->Ok_0.security_epoch == s.security_epoch + (if eff.graph
            == "__security"@ && eff.events.len() > 0 {
            1int
        } else {
            0
        }),
{
    law_effects_are_taken_in_whole(s, eff.graph, eff.table, eff.events);
}

} // verus!
