//! Bulk ingestion: prepared nodes and edges, written without reading.

use crate::doc::{Doc, DocView};
use crate::effects::{sat, Effects, EffectsView};
use crate::error::{EngineError, ErrorView};
use crate::event::{Event, Op};
use crate::fold::{fold, lemma_fold_all, lemma_fold_step};
use crate::insert::{
    check_derived, creates, derived_iids, first_refused, put_event, put_id, put_id_spec, IdRequest,
    IdRequestView, ValidRange,
};
use crate::names::{reserved_name, reserved_name_error, validate_user_graph_name};
use crate::state::{GraphsState, StateView, TableKind};
use crate::text::{clone_texts, views};
use crate::types::{Iid, Instant, Value, ValueView};
use vstd::prelude::*;

verus! {

/// A node to write: it replaces the one with the same `_id`.
#[derive(Debug)]
pub struct NodePut {
    pub labels: Vec<String>,
    pub doc: Doc,
}

/// An edge to write. Its ends are named by the `_id` of their nodes, which need
/// not be there.
#[derive(Debug)]
pub struct EdgePut {
    pub label: String,
    pub src: Value,
    pub dst: Value,
    pub doc: Doc,
}

#[verifier::ext_equal]
pub struct NodePutView {
    pub labels: Seq<Seq<char>>,
    pub doc: DocView,
}

#[verifier::ext_equal]
pub struct EdgePutView {
    pub label: Seq<char>,
    pub src: ValueView,
    pub dst: ValueView,
    pub doc: DocView,
}

impl View for NodePut {
    type V = NodePutView;

    open spec fn view(&self) -> NodePutView {
        NodePutView { labels: views(self.labels@), doc: self.doc@ }
    }
}

impl View for EdgePut {
    type V = EdgePutView;

    open spec fn view(&self) -> EdgePutView {
        EdgePutView { label: self.label@, src: self.src@, dst: self.dst@, doc: self.doc@ }
    }
}

pub open spec fn node_puts_wf(s: Seq<NodePut>) -> bool {
    forall|i: int| 0 <= i < s.len() ==> (#[trigger] s[i]).doc.wf()
}

pub open spec fn edge_puts_wf(s: Seq<EdgePut>) -> bool {
    forall|i: int| 0 <= i < s.len() ==> (#[trigger] s[i]).doc.wf()
}

/// Why no batch is taken for the named graph, if none is.
pub open spec fn ingest_graph_fault(s: StateView, graph: Seq<char>) -> Option<ErrorView> {
    if reserved_name(graph) {
        Some(reserved_name_error(graph))
    } else if !s.graphs.dom().contains(graph) {
        Some(ErrorView::UnknownGraph(graph))
    } else {
        None
    }
}

/// Whether a batch may be submitted for the named graph: the name must be free
/// for users, and the graph must be there. A batch that may not be submitted
/// never reaches the writer.
pub fn check_ingest_graph(state: &GraphsState, graph: &str) -> (r: Result<(), EngineError>)
    requires
        state.wf(),
    ensures
        match r {
            Ok(()) => ingest_graph_fault(state@, graph@) is None,
            Err(e) => ingest_graph_fault(state@, graph@) == Some(e@),
        },
{
    match validate_user_graph_name(graph) {
        Ok(()) => {},
        Err(e) => {
            return Err(e);
        },
    }
    if !state.has_graph(graph) {
        return Err(EngineError::UnknownGraph(graph.to_owned()));
    }
    Ok(())
}

/// Whether a batch can be taken: it must hold something, for a graph that is
/// there.
pub fn admit_ingest(
    state: &GraphsState,
    nodes: &Vec<NodePut>,
    edges: &Vec<EdgePut>,
    graph: &String,
) -> (r: Result<(), EngineError>)
    requires
        state.wf(),
    ensures
        match r {
            Ok(()) => nodes@.len() + edges@.len() > 0 && state@.graphs.dom().contains(graph@),
            Err(e) => if nodes@.len() + edges@.len() == 0 {
                e@ == ErrorView::NotAMutation
            } else {
                !state@.graphs.dom().contains(graph@) && e@ == ErrorView::UnknownGraph(graph@)
            },
        },
{
    if nodes.len() == 0 && edges.len() == 0 {
        return Err(EngineError::NotAMutation);
    }
    if !state.has_graph(graph.as_str()) {
        return Err(EngineError::UnknownGraph(graph.clone()));
    }
    Ok(())
}

/// A prepared batch: every document has its `_id`, and `ids` are the values
/// that identifiers are derived from: one for each node, then three for each
/// edge, for itself, its source and its destination.
#[derive(Debug)]
pub struct IngestPlan {
    pub ids: Vec<IdRequest>,
    pub nodes: Vec<NodePut>,
    pub edges: Vec<EdgePut>,
}

impl IngestPlan {
    pub open spec fn wf(&self) -> bool {
        &&& node_puts_wf(self.nodes@)
        &&& edge_puts_wf(self.edges@)
        &&& self.ids@.len() == self.nodes@.len() + 3 * self.edges@.len()
    }
}

/// The node at place `i` of a batch, with its `_id`.
pub open spec fn node_with_id(n: NodePutView, tx_id: u64, i: int) -> NodePutView {
    NodePutView { doc: put_id_spec(n.doc, tx_id, i as nat).0, ..n }
}

/// The edge at place `i` of a batch, with its `_id`.
pub open spec fn edge_with_id(e: EdgePutView, tx_id: u64, i: int) -> EdgePutView {
    EdgePutView { doc: put_id_spec(e.doc, tx_id, i as nat).0, ..e }
}

/// The identifier asked for at place `k`.
pub open spec fn ingest_request(
    nodes: Seq<NodePutView>,
    edges: Seq<EdgePutView>,
    tx_id: u64,
    k: int,
) -> IdRequestView {
    if k < nodes.len() {
        IdRequestView {
            table: TableKind::Nodes,
            id: put_id_spec(nodes[k].doc, tx_id, k as nat).1,
        }
    } else {
        let j = (k - nodes.len()) / 3;
        let part = (k - nodes.len()) % 3;
        if part == 0 {
            IdRequestView {
                table: TableKind::Edges,
                id: put_id_spec(edges[j].doc, tx_id, (nodes.len() + j) as nat).1,
            }
        } else if part == 1 {
            IdRequestView { table: TableKind::Nodes, id: edges[j].src }
        } else {
            IdRequestView { table: TableKind::Nodes, id: edges[j].dst }
        }
    }
}

/// Prepares a batch.
pub fn plan_ingest(nodes: Vec<NodePut>, edges: Vec<EdgePut>, tx_id: u64) -> (r: IngestPlan)
    requires
        node_puts_wf(nodes@),
        edge_puts_wf(edges@),
        nodes@.len() + edges@.len() <= u64::MAX,
    ensures
        r.wf(),
        r.nodes@.len() == nodes@.len(),
        r.edges@.len() == edges@.len(),
        forall|i: int|
            0 <= i < nodes@.len() ==> (#[trigger] r.nodes@[i])@ == node_with_id(
                nodes@[i]@,
                tx_id,
                i,
            ),
        forall|i: int|
            0 <= i < edges@.len() ==> (#[trigger] r.edges@[i])@ == edge_with_id(
                edges@[i]@,
                tx_id,
                nodes@.len() + i,
            ),
        forall|k: int|
            0 <= k < r.ids@.len() ==> (#[trigger] r.ids@[k])@ == ingest_request(
                views(nodes@),
                views(edges@),
                tx_id,
                k,
            ),
{
    let ghost ns = views(nodes@);
    let ghost es = views(edges@);
    let ghost nodes0 = nodes@;
    let ghost edges0 = edges@;
    let count: usize = nodes.len();
    let mut ids: Vec<IdRequest> = Vec::new();
    let mut out_nodes: Vec<NodePut> = Vec::new();
    for node in it: nodes
        invariant
            it.seq() == nodes0,
            count == nodes0.len(),
            node_puts_wf(nodes0),
            ns == views(nodes0),
            nodes0.len() + edges0.len() <= u64::MAX,
            ids@.len() == it.index(),
            out_nodes@.len() == it.index(),
            node_puts_wf(out_nodes@),
            forall|i: int|
                0 <= i < it.index() ==> (#[trigger] out_nodes@[i])@ == node_with_id(
                    nodes0[i]@,
                    tx_id,
                    i,
                ),
            forall|k: int|
                0 <= k < ids@.len() ==> (#[trigger] ids@[k])@ == ingest_request(ns, es, tx_id, k),
    {
        let ghost i = it.index() as int;
        proof {
            assert(nodes0[i] == node);
            assert(ns[i] == node@);
        }
        let mut doc = node.doc;
        let id = put_id(&mut doc, tx_id, ids.len() as u64);
        ids.push(IdRequest { table: TableKind::Nodes, id });
        out_nodes.push(NodePut { labels: node.labels, doc });
        assert(out_nodes@[i]@ =~= node_with_id(nodes0[i]@, tx_id, i));
    }
    let mut out_edges: Vec<EdgePut> = Vec::new();
    for edge in it: edges
        invariant
            it.seq() == edges0,
            count == nodes0.len(),
            ns == views(nodes0),
            es == views(edges0),
            edge_puts_wf(edges0),
            nodes0.len() + edges0.len() <= u64::MAX,
            ids@.len() == count + 3 * it.index(),
            out_edges@.len() == it.index(),
            edge_puts_wf(out_edges@),
            forall|i: int|
                0 <= i < it.index() ==> (#[trigger] out_edges@[i])@ == edge_with_id(
                    edges0[i]@,
                    tx_id,
                    nodes0.len() + i,
                ),
            forall|k: int|
                0 <= k < ids@.len() ==> (#[trigger] ids@[k])@ == ingest_request(ns, es, tx_id, k),
    {
        let ghost j = it.index() as int;
        let ghost base = ids@.len() as int;
        proof {
            assert(edges0[j] == edge);
            assert(es[j] == edge@);
            assert((base - ns.len()) / 3 == j && (base - ns.len()) % 3 == 0);
            assert((base + 1 - ns.len()) / 3 == j && (base + 1 - ns.len()) % 3 == 1);
            assert((base + 2 - ns.len()) / 3 == j && (base + 2 - ns.len()) % 3 == 2);
        }
        let mut doc = edge.doc;
        let id = put_id(&mut doc, tx_id, count as u64 + out_edges.len() as u64);
        ids.push(IdRequest { table: TableKind::Edges, id });
        ids.push(IdRequest { table: TableKind::Nodes, id: edge.src.clone_value() });
        ids.push(IdRequest { table: TableKind::Nodes, id: edge.dst.clone_value() });
        out_edges.push(
            EdgePut { label: edge.label, src: edge.src, dst: edge.dst, doc },
        );
        assert(out_edges@[j]@ =~= edge_with_id(edges0[j]@, tx_id, nodes0.len() + j));
    }
    IngestPlan { ids, nodes: out_nodes, edges: out_edges }
}

/// The nodes of a batch are created.
pub open spec fn nodes_ingested(
    nodes: Seq<NodePutView>,
    iids: Seq<Iid>,
    range: ValidRange,
) -> EffectsView {
    fold(
        Seq::new(nodes.len(), |i: int| i),
        EffectsView::empty(),
        |eff: EffectsView, i: int|
            eff.node_created(nodes[i].labels, nodes[i].doc).push_node(
                put_event(iids[i], None, nodes[i].labels, nodes[i].doc, range),
            ),
    )
}

/// One edge of a batch is created.
pub open spec fn edge_ingested(
    eff: EffectsView,
    e: EdgePutView,
    at: int,
    iids: Seq<Iid>,
    range: ValidRange,
) -> EffectsView {
    eff.edge_created(e.doc).push_edge(
        put_event(iids[at], Some((iids[at + 1], iids[at + 2])), seq![e.label], e.doc, range),
    )
}

/// What a prepared batch does: its nodes, then its edges, are created.
pub open spec fn ingested(
    nodes: Seq<NodePutView>,
    edges: Seq<EdgePutView>,
    iids: Seq<Iid>,
    range: ValidRange,
) -> EffectsView {
    fold(
        Seq::new(edges.len(), |j: int| j),
        nodes_ingested(nodes, iids, range),
        |eff: EffectsView, j: int|
            edge_ingested(eff, edges[j], nodes.len() + 3 * j, iids, range),
    )
}

fn derived_at(derived: &Vec<Result<Iid, String>>, i: usize) -> (r: Iid)
    requires
        i < derived@.len(),
        derived@[i as int] is Ok,
    ensures
        r == derived_iids(derived@)[i as int],
{
    match &derived[i] {
        Ok(iid) => *iid,
        Err(_) => {
            assert(false);
            Iid { bits: 0 }
        },
    }
}

/// The events of a prepared batch, given the identifier derived for each value
/// asked for (or the text of the failure to derive it).
pub fn resolve_ingest(
    plan: IngestPlan,
    derived: &Vec<Result<Iid, String>>,
    system: Instant,
) -> (r: Result<Effects, EngineError>)
    requires
        plan.wf(),
        derived@.len() == plan.ids@.len(),
    ensures
        ({
            let range = crate::ddl::from_now(system);
            match r {
                Ok(eff) => eff.wf() && first_refused(derived@, 0) is None && eff@ == ingested(
                    views(plan.nodes@),
                    views(plan.edges@),
                    derived_iids(derived@),
                    range,
                ),
                Err(e) => first_refused(derived@, 0) is Some && e@ == ErrorView::Type(
                    first_refused(derived@, 0)->0,
                ),
            }
        }),
        r matches Ok(eff) ==> {
            &&& forall|k: int|
                0 <= k < eff.nodes@.len() ==> {
                    &&& (#[trigger] eff.nodes@[k]).valid_from == system
                    &&& eff.nodes@[k].valid_to.us == i64::MAX
                    &&& eff.nodes@[k].system_from == system
                }
            &&& forall|k: int|
                0 <= k < eff.edges@.len() ==> {
                    &&& (#[trigger] eff.edges@[k]).valid_from == system
                    &&& eff.edges@[k].valid_to.us == i64::MAX
                    &&& eff.edges@[k].system_from == system
                }
        },
{
    match check_derived(derived) {
        Some(text) => {
            return Err(EngineError::Type(text));
        },
        None => {},
    }
    let ghost range = crate::ddl::from_now(system);
    let ghost iids = derived_iids(derived@);
    let ghost ns = views(plan.nodes@);
    let ghost es = views(plan.edges@);
    let ghost node_places = Seq::new(ns.len(), |i: int| i);
    let ghost node_step = |eff: EffectsView, i: int|
        eff.node_created(ns[i].labels, ns[i].doc).push_node(
            put_event(iids[i], None, ns[i].labels, ns[i].doc, range),
        );
    let valid_to = Instant::end_of_time();
    let mut effects = Effects::new();
    let mut i: usize = 0;
    proof {
        lemma_fold_all(node_places, EffectsView::empty(), node_step);
    }
    while i < plan.nodes.len()
        invariant
            i <= plan.nodes.len(),
            plan.wf(),
            derived@.len() == plan.ids@.len(),
            forall|k: int| 0 <= k < derived@.len() ==> (#[trigger] derived@[k]) is Ok,
            valid_to == Instant::end_of_time(),
            range == crate::ddl::from_now(system),
            iids == derived_iids(derived@),
            ns == views(plan.nodes@),
            node_places == Seq::new(ns.len(), |i: int| i),
            node_step == (|eff: EffectsView, i: int|
                eff.node_created(ns[i].labels, ns[i].doc).push_node(
                    put_event(iids[i], None, ns[i].labels, ns[i].doc, range),
                )),
            effects.wf(),
            effects@ == fold(
                node_places.subrange(0, i as int),
                EffectsView::empty(),
                node_step,
            ),
        decreases plan.nodes.len() - i,
    {
        proof {
            lemma_fold_step(node_places, EffectsView::empty(), node_step, i as int);
            assert(ns[i as int] == plan.nodes@[i as int]@);
        }
        let node = &plan.nodes[i];
        effects.record_node_create(&node.labels, &node.doc);
        effects.push_node(
            Event {
                iid: derived_at(derived, i),
                system_from: system,
                valid_from: system,
                valid_to,
                src: None,
                dst: None,
                op: Op::Put { labels: clone_texts(&node.labels), doc: node.doc.clone_doc() },
            },
        );
        i += 1;
    }
    proof {
        lemma_fold_all(node_places, EffectsView::empty(), node_step);
    }
    let n: usize = plan.nodes.len();
    let ghost start = effects@;
    let ghost edge_places = Seq::new(es.len(), |j: int| j);
    let ghost edge_step = |eff: EffectsView, j: int|
        edge_ingested(eff, es[j], ns.len() + 3 * j, iids, range);
    let mut j: usize = 0;
    let mut at: usize = n;
    let total: usize = derived.len();
    proof {
        lemma_fold_all(edge_places, start, edge_step);
    }
    while j < plan.edges.len()
        invariant
            j <= plan.edges.len(),
            plan.wf(),
            n == plan.nodes@.len(),
            at == n + 3 * j,
            total == derived@.len(),
            derived@.len() == plan.ids@.len(),
            forall|k: int| 0 <= k < derived@.len() ==> (#[trigger] derived@[k]) is Ok,
            valid_to == Instant::end_of_time(),
            range == crate::ddl::from_now(system),
            iids == derived_iids(derived@),
            ns == views(plan.nodes@),
            es == views(plan.edges@),
            edge_places == Seq::new(es.len(), |j: int| j),
            edge_step == (|eff: EffectsView, j: int|
                edge_ingested(eff, es[j], ns.len() + 3 * j, iids, range)),
            effects.wf(),
            effects@ == fold(edge_places.subrange(0, j as int), start, edge_step),
        decreases plan.edges.len() - j,
    {
        proof {
            lemma_fold_step(edge_places, start, edge_step, j as int);
            assert(es[j as int] == plan.edges@[j as int]@);
        }
        let edge = &plan.edges[j];
        effects.record_edge_create(&edge.doc);
        let mut labels: Vec<String> = Vec::new();
        labels.push(edge.label.clone());
        assert(views(labels@) =~= seq![edge.label@]);
        effects.push_edge(
            Event {
                iid: derived_at(derived, at),
                system_from: system,
                valid_from: system,
                valid_to,
                src: Some(derived_at(derived, at + 1)),
                dst: Some(derived_at(derived, at + 2)),
                op: Op::Put { labels, doc: edge.doc.clone_doc() },
            },
        );
        j += 1;
        at += 3;
    }
    proof {
        lemma_fold_all(edge_places, start, edge_step);
        law_batches_are_written_whole(ns, es, iids, range);
        assert forall|k: int| 0 <= k < effects.nodes@.len() implies ({
            &&& (#[trigger] effects.nodes@[k]).valid_from == system
            &&& effects.nodes@[k].valid_to.us == i64::MAX
            &&& effects.nodes@[k].system_from == system
        }) by {
            assert(effects@.nodes[k] == effects.nodes@[k]@);
        }
        assert forall|k: int| 0 <= k < effects.edges@.len() implies ({
            &&& (#[trigger] effects.edges@[k]).valid_from == system
            &&& effects.edges@[k].valid_to.us == i64::MAX
            &&& effects.edges@[k].system_from == system
        }) by {
            assert(effects@.edges[k] == effects.edges@[k]@);
        }
    }
    Ok(effects)
}

proof fn lemma_nodes_ingested(
    nodes: Seq<NodePutView>,
    iids: Seq<Iid>,
    range: ValidRange,
    n: int,
)
    requires
        0 <= n <= nodes.len(),
    ensures
        ({
            let eff = fold(
                Seq::new(n as nat, |i: int| i),
                EffectsView::empty(),
                |eff: EffectsView, i: int|
                    eff.node_created(nodes[i].labels, nodes[i].doc).push_node(
                        put_event(iids[i], None, nodes[i].labels, nodes[i].doc, range),
                    ),
            );
            &&& eff.nodes.len() == n
            &&& eff.edges.len() == 0
            &&& eff.catalog_ops.len() == 0
            &&& eff.side_effects.nodes_created == sat(n)
            &&& eff.side_effects.relationships_created == 0
            &&& forall|i: int|
                0 <= i < n ==> creates(
                    #[trigger] eff.nodes[i],
                    iids[i],
                    nodes[i].labels,
                    nodes[i].doc,
                    range,
                ) && eff.nodes[i].src is None && eff.nodes[i].dst is None
        }),
    decreases n,
{
    if n > 0 {
        assert(Seq::new(n as nat, |i: int| i).drop_last() =~= Seq::new((n - 1) as nat, |i: int| i));
        lemma_nodes_ingested(nodes, iids, range, n - 1);
    }
}

proof fn lemma_edges_ingested(
    nodes: Seq<NodePutView>,
    edges: Seq<EdgePutView>,
    iids: Seq<Iid>,
    range: ValidRange,
    n: int,
)
    requires
        0 <= n <= edges.len(),
    ensures
        ({
            let start = nodes_ingested(nodes, iids, range);
            let eff = fold(
                Seq::new(n as nat, |j: int| j),
                start,
                |eff: EffectsView, j: int|
                    edge_ingested(eff, edges[j], nodes.len() + 3 * j, iids, range),
            );
            &&& eff.nodes == start.nodes
            &&& eff.catalog_ops == start.catalog_ops
            &&& eff.side_effects.nodes_created == start.side_effects.nodes_created
            &&& eff.edges.len() == n
            &&& eff.side_effects.relationships_created == sat(n)
            &&& forall|j: int|
                0 <= j < n ==> {
                    let at = nodes.len() + 3 * j;
                    &&& creates(
                        #[trigger] eff.edges[j],
                        iids[at],
                        seq![edges[j].label],
                        edges[j].doc,
                        range,
                    )
                    &&& eff.edges[j].src == Some(iids[at + 1])
                    &&& eff.edges[j].dst == Some(iids[at + 2])
                }
        }),
    decreases n,
{
    lemma_nodes_ingested(nodes, iids, range, nodes.len() as int);
    if n > 0 {
        assert(Seq::new(n as nat, |j: int| j).drop_last() =~= Seq::new((n - 1) as nat, |j: int| j));
        lemma_edges_ingested(nodes, edges, iids, range, n - 1);
    }
}

/// A batch is written whole and in order: each node under its own identifier,
/// each edge under its own, from the node of its first end to the node of its
/// second, all with their labels and documents and for the same time. Nothing
/// else is written, and the tally counts just these.
pub proof fn law_batches_are_written_whole(
    nodes: Seq<NodePutView>,
    edges: Seq<EdgePutView>,
    iids: Seq<Iid>,
    range: ValidRange,
)
    ensures
        ({
            let eff = ingested(nodes, edges, iids, range);
            &&& eff.nodes.len() == nodes.len()
            &&& eff.edges.len() == edges.len()
            &&& eff.catalog_ops.len() == 0
            &&& eff.side_effects.nodes_created == sat(nodes.len() as int)
            &&& eff.side_effects.relationships_created == sat(edges.len() as int)
            &&& forall|i: int|
                0 <= i < nodes.len() ==> creates(
                    #[trigger] eff.nodes[i],
                    iids[i],
                    nodes[i].labels,
                    nodes[i].doc,
                    range,
                ) && eff.nodes[i].src is None && eff.nodes[i].dst is None
            &&& forall|j: int|
                0 <= j < edges.len() ==> {
                    let at = nodes.len() + 3 * j;
                    &&& creates(
                        #[trigger] eff.edges[j],
                        iids[at],
                        seq![edges[j].label],
                        edges[j].doc,
                        range,
                    )
                    &&& eff.edges[j].src == Some(iids[at + 1])
                    &&& eff.edges[j].dst == Some(iids[at + 2])
                }
        }),
{
    lemma_nodes_ingested(nodes, iids, range, nodes.len() as int);
    lemma_edges_ingested(nodes, edges, iids, range, edges.len() as int);
}

/// Each node asks for the identifier of its own `_id`. Each edge asks for that
/// of its own `_id`, then for those of its source and of its destination, which
/// are nodes. Preparing changes no label, no end and no property but the `_id`.
pub proof fn law_batches_ask_for_every_identifier(
    nodes: Seq<NodePutView>,
    edges: Seq<EdgePutView>,
    tx_id: u64,
)
    ensures
        forall|i: int|
            0 <= i < nodes.len() ==> {
                let r = #[trigger] ingest_request(nodes, edges, tx_id, i);
                let n = node_with_id(nodes[i], tx_id, i);
                &&& r.table is Nodes
                &&& n.doc.dom().contains("_id"@)
                &&& r.id == n.doc["_id"@]
                &&& n.labels == nodes[i].labels
                &&& n.doc.remove("_id"@) == nodes[i].doc.remove("_id"@)
                &&& (nodes[i].doc.dom().contains("_id"@) ==> n.doc == nodes[i].doc)
            },
        forall|j: int|
            0 <= j < edges.len() ==> {
                let at = nodes.len() + 3 * j;
                let e = #[trigger] edge_with_id(edges[j], tx_id, nodes.len() + j);
                let own = ingest_request(nodes, edges, tx_id, at);
                let src = ingest_request(nodes, edges, tx_id, at + 1);
                let dst = ingest_request(nodes, edges, tx_id, at + 2);
                &&& own.table is Edges
                &&& e.doc.dom().contains("_id"@)
                &&& own.id == e.doc["_id"@]
                &&& src.table is Nodes
                &&& src.id == edges[j].src
                &&& dst.table is Nodes
                &&& dst.id == edges[j].dst
                &&& e.label == edges[j].label
                &&& e.src == edges[j].src
                &&& e.dst == edges[j].dst
                &&& e.doc.remove("_id"@) == edges[j].doc.remove("_id"@)
                &&& (edges[j].doc.dom().contains("_id"@) ==> e.doc == edges[j].doc)
            },
{
    assert forall|i: int| 0 <= i < nodes.len() implies ({
        let r = #[trigger] ingest_request(nodes, edges, tx_id, i);
        let n = node_with_id(nodes[i], tx_id, i);
        &&& r.table is Nodes
        &&& n.doc.dom().contains("_id"@)
        &&& r.id == n.doc["_id"@]
        &&& n.labels == nodes[i].labels
        &&& n.doc.remove("_id"@) == nodes[i].doc.remove("_id"@)
        &&& (nodes[i].doc.dom().contains("_id"@) ==> n.doc == nodes[i].doc)
    }) by {
        let n = node_with_id(nodes[i], tx_id, i);
        assert(n.doc.remove("_id"@) =~= nodes[i].doc.remove("_id"@));
    }
    assert forall|j: int| 0 <= j < edges.len() implies ({
        let at = nodes.len() + 3 * j;
        let e = #[trigger] edge_with_id(edges[j], tx_id, nodes.len() + j);
        let own = ingest_request(nodes, edges, tx_id, at);
        let src = ingest_request(nodes, edges, tx_id, at + 1);
        let dst = ingest_request(nodes, edges, tx_id, at + 2);
        &&& own.table is Edges
        &&& e.doc.dom().contains("_id"@)
        &&& own.id == e.doc["_id"@]
        &&& src.table is Nodes
        &&& src.id == edges[j].src
        &&& dst.table is Nodes
        &&& dst.id == edges[j].dst
        &&& e.label == edges[j].label
        &&& e.src == edges[j].src
        &&& e.dst == edges[j].dst
        &&& e.doc.remove("_id"@) == edges[j].doc.remove("_id"@)
        &&& (edges[j].doc.dom().contains("_id"@) ==> e.doc == edges[j].doc)
    }) by {
        let at = nodes.len() + 3 * j;
        let e = edge_with_id(edges[j], tx_id, nodes.len() + j);
        assert((at - nodes.len()) / 3 == j && (at - nodes.len()) % 3 == 0);
        assert((at + 1 - nodes.len()) / 3 == j && (at + 1 - nodes.len()) % 3 == 1);
        assert((at + 2 - nodes.len()) / 3 == j && (at + 2 - nodes.len()) % 3 == 2);
        assert(e.doc.remove("_id"@) =~= edges[j].doc.remove("_id"@));
    }
}

} // verus!
