//! `MATCH ... DELETE` and `MATCH ... ERASE`.

use crate::ast::{MutKind, MutateStmt, PathPattern};
use crate::bindings::{
    edge_endpoints_from_match_row, endpoints_in_paths, BindingKind, Kinds, Row,
};
use crate::effects::{CatalogOpView, Effects, EffectsView};
use crate::error::{EngineError, ErrorView};
use crate::event::{Event, EventView, Op, OpView};
use crate::fold::{
    fold, lemma_fold_all, lemma_fold_step, lemma_try_fold_all, lemma_try_fold_fails,
    lemma_try_fold_step, try_fold,
};
use crate::sorted::{
    ascending, lemma_map_keys_sorted, lemma_set_items, lemma_set_items_sorted, lemma_sorted_domain,
    lemma_sorted_exists, lemma_sorted_seq, sorted_seq, OrderedKey, SortedMap, SortedSet,
};
use crate::text::{concat4, views};
use crate::types::{Iid, Instant};
use crate::visible::{AdjDirection, AdjEntry, IncidentEdges, Visible};
use vstd::prelude::*;

verus! {

/// The ends of each edge that is to go.
pub type EdgeEnds = Map<Iid, (Iid, Iid)>;

pub open spec fn mutation_op_spec(kind: MutKind) -> OpView {
    match kind {
        MutKind::Delete => OpView::Delete,
        MutKind::Erase => OpView::Erase,
    }
}

/// The operation that a kind of mutation records.
pub fn mutation_op(kind: MutKind) -> (r: Op)
    ensures
        r@ == mutation_op_spec(kind),
        r.wf(),
{
    match kind {
        MutKind::Delete => Op::Delete,
        MutKind::Erase => Op::Erase,
    }
}

pub open spec fn mutation_valid_from_spec(kind: MutKind, system: Instant) -> Instant {
    match kind {
        MutKind::Delete => system,
        MutKind::Erase => Instant::earliest(),
    }
}

/// From when on a mutation holds: a deletion from now, an erasure from the
/// beginning of time.
pub fn mutation_valid_from(kind: MutKind, system: Instant) -> (r: Instant)
    ensures
        r == mutation_valid_from_spec(kind, system),
{
    match kind {
        MutKind::Delete => system,
        MutKind::Erase => Instant::earliest(),
    }
}

pub open spec fn mutation_name_spec(kind: MutKind) -> Seq<char> {
    match kind {
        MutKind::Delete => "DELETE"@,
        MutKind::Erase => "ERASE"@,
    }
}

/// The keyword of a mutation.
pub fn mutation_name(kind: MutKind) -> (r: &'static str)
    ensures
        r@ == mutation_name_spec(kind),
{
    match kind {
        MutKind::Delete => "DELETE",
        MutKind::Erase => "ERASE",
    }
}

/// The event by which an element goes.
pub open spec fn gone_event(
    iid: Iid,
    ends: Option<(Iid, Iid)>,
    kind: MutKind,
    system: Instant,
) -> EventView {
    EventView {
        iid,
        system_from: system,
        valid_from: mutation_valid_from_spec(kind, system),
        valid_to: Instant::end_of_time(),
        src: match ends {
            Some(e) => Some(e.0),
            None => None,
        },
        dst: match ends {
            Some(e) => Some(e.1),
            None => None,
        },
        op: mutation_op_spec(kind),
    }
}

fn make_gone_event(iid: Iid, ends: Option<(Iid, Iid)>, kind: MutKind, system: Instant) -> (r: Event)
    ensures
        r.wf(),
        r@ == gone_event(iid, ends, kind, system),
{
    let (src, dst) = match ends {
        Some((s, d)) => (Some(s), Some(d)),
        None => (None, None),
    };
    Event {
        iid,
        system_from: system,
        valid_from: mutation_valid_from(kind, system),
        valid_to: Instant::end_of_time(),
        src,
        dst,
        op: mutation_op(kind),
    }
}

/// One edge more is gone. A visible one is counted with its properties.
pub open spec fn edge_gone(
    eff: EffectsView,
    iid: Iid,
    ends: (Iid, Iid),
    visible: Visible,
    kind: MutKind,
    system: Instant,
) -> EffectsView {
    (match visible.lookup(BindingKind::Edge, iid) {
        Some(p) => eff.edge_deleted(p.doc),
        None => eff,
    }).push_edge(gone_event(iid, Some(ends), kind, system))
}

/// One node more is gone. A visible one is counted with its properties and
/// labels.
pub open spec fn node_gone(
    eff: EffectsView,
    iid: Iid,
    visible: Visible,
    kind: MutKind,
    system: Instant,
) -> EffectsView {
    (match visible.lookup(BindingKind::Node, iid) {
        Some(p) => eff.node_deleted(p.labels, p.doc),
        None => eff,
    }).push_node(gone_event(iid, None, kind, system))
}

/// The edges of a map are gone, in the order of their identifiers.
pub open spec fn edges_gone(
    edges: EdgeEnds,
    visible: Visible,
    kind: MutKind,
    system: Instant,
) -> EffectsView {
    fold(
        sorted_seq::<Iid>(edges.dom()),
        EffectsView::empty(),
        |eff: EffectsView, iid: Iid| edge_gone(eff, iid, edges[iid], visible, kind, system),
    )
}

/// The nodes of a set are gone, in the order of their identifiers.
pub open spec fn nodes_gone(
    eff: EffectsView,
    nodes: Set<Iid>,
    visible: Visible,
    kind: MutKind,
    system: Instant,
) -> EffectsView {
    fold(
        sorted_seq::<Iid>(nodes),
        eff,
        |eff: EffectsView, iid: Iid| node_gone(eff, iid, visible, kind, system),
    )
}

/// The elements that the rows bind to `target`.
pub open spec fn target_iids(rows: Seq<Map<Seq<char>, Iid>>, target: Seq<char>) -> Set<Iid> {
    Set::new(
        |iid: Iid|
            exists|i: int|
                0 <= i < rows.len() && (#[trigger] rows[i]).dom().contains(target)
                    && rows[i][target] == iid,
    )
}

pub open spec fn conflicting_endpoints(kind: MutKind, target: Seq<char>) -> ErrorView {
    ErrorView::Unsupported(
        mutation_name_spec(kind) + " edge variable '"@ + target
            + "' matched conflicting endpoints"@,
    )
}

/// One row of an edge deletion: the edge bound to the target, with its ends.
pub open spec fn edge_row(
    edges: EdgeEnds,
    row: Map<Seq<char>, Iid>,
    paths: Seq<PathPattern>,
    target: Seq<char>,
    kind: MutKind,
) -> Result<EdgeEnds, ErrorView> {
    if !row.dom().contains(target) {
        Ok(edges)
    } else {
        match endpoints_in_paths(paths, 0, target, row) {
            Err(e) => Err(e),
            Ok(ends) => if edges.dom().contains(row[target]) && edges[row[target]] != ends {
                Err(conflicting_endpoints(kind, target))
            } else {
                Ok(edges.insert(row[target], ends))
            },
        }
    }
}

/// The edges that the rows bind to the target, with their ends.
pub open spec fn edge_rows(
    rows: Seq<Map<Seq<char>, Iid>>,
    paths: Seq<PathPattern>,
    target: Seq<char>,
    kind: MutKind,
) -> Result<EdgeEnds, ErrorView> {
    try_fold(
        rows,
        Map::<Iid, (Iid, Iid)>::empty(),
        |m: EdgeEnds, row: Map<Seq<char>, Iid>| edge_row(m, row, paths, target, kind),
    )
}

/// The edges listed at one end are added.
pub open spec fn add_incident(m: EdgeEnds, entries: Seq<AdjEntry>, dir: AdjDirection) -> EdgeEnds {
    fold(entries, m, |m: EdgeEnds, e: AdjEntry| m.insert(e.edge, e.ends(dir)))
}

/// The edges at one node are added.
pub open spec fn add_incident_of(m: EdgeEnds, node: Iid, incident: IncidentEdges) -> EdgeEnds {
    add_incident(
        add_incident(m, incident.of(AdjDirection::Out, node), AdjDirection::Out),
        incident.of(AdjDirection::In, node),
        AdjDirection::In,
    )
}

/// The edges at any of the nodes, each once, with their ends.
pub open spec fn incident_edges_of(nodes: Set<Iid>, incident: IncidentEdges) -> EdgeEnds {
    fold(
        sorted_seq::<Iid>(nodes),
        Map::<Iid, (Iid, Iid)>::empty(),
        |m: EdgeEnds, n: Iid| add_incident_of(m, n, incident),
    )
}

/// What a deletion does. The target must be bound. Edges go by themselves.
/// Nodes go only when nothing is attached to them, or together with all that
/// is attached when the statement says `DETACH`.
pub open spec fn delete_spec(
    stmt: MutateStmt,
    rows: Seq<Map<Seq<char>, Iid>>,
    kinds: Map<Seq<char>, BindingKind>,
    visible: Visible,
    incident: IncidentEdges,
    system: Instant,
) -> Result<EffectsView, ErrorView> {
    if !kinds.dom().contains(stmt.target@) {
        Err(ErrorView::UnboundVariable(stmt.target@))
    } else if kinds[stmt.target@] == BindingKind::Edge {
        match edge_rows(rows, stmt.match_part@, stmt.target@, stmt.kind) {
            Err(e) => Err(e),
            Ok(edges) => Ok(edges_gone(edges, visible, stmt.kind, system)),
        }
    } else {
        let nodes = target_iids(rows, stmt.target@);
        let attached = incident_edges_of(nodes, incident);
        if !stmt.detach && attached.dom().len() > 0 {
            Err(ErrorView::StillConnected(attached.dom().len() as usize))
        } else {
            Ok(
                nodes_gone(
                    edges_gone(attached, visible, stmt.kind, system),
                    nodes,
                    visible,
                    stmt.kind,
                    system,
                ),
            )
        }
    }
}

/// Every row is well formed.
pub open spec fn rows_wf(rows: Seq<Row>) -> bool {
    forall|i: int| 0 <= i < rows.len() ==> (#[trigger] rows[i]).wf()
}

/// The elements that the rows bind to `target`.
pub fn target_elements(rows: &Vec<Row>, target: &String) -> (r: SortedSet<Iid>)
    requires
        rows_wf(rows@),
    ensures
        r.wf(),
        r@ == target_iids(views(rows@), target@),
{
    let ghost all = views(rows@);
    let mut set: SortedSet<Iid> = SortedSet::new();
    let mut i: usize = 0;
    while i < rows.len()
        invariant
            i <= rows.len(),
            rows_wf(rows@),
            all == views(rows@),
            set.wf(),
            forall|x: Iid|
                set@.contains(x) <==> exists|j: int|
                    0 <= j < i && (#[trigger] all[j]).dom().contains(target@) && all[j][target@]
                        == x,
        decreases rows.len() - i,
    {
        let ghost before = set@;
        match rows[i].get(target) {
            Some(iid) => {
                set.insert(*iid);
                proof {
                    assert(all[i as int] == rows@[i as int]@);
                    assert forall|x: Iid|
                        set@.contains(x) <==> exists|j: int|
                            0 <= j < i + 1 && (#[trigger] all[j]).dom().contains(target@)
                                && all[j][target@] == x by {
                        if before.contains(x) {
                            let j = choose|j: int|
                                0 <= j < i && (#[trigger] all[j]).dom().contains(target@)
                                    && all[j][target@] == x;
                            assert(0 <= j < i + 1 && all[j].dom().contains(target@));
                        }
                        if x == *iid {
                            assert(all[i as int].dom().contains(target@));
                        }
                    }
                }
            },
            None => {
                proof {
                    assert(all[i as int] == rows@[i as int]@);
                    assert forall|x: Iid|
                        set@.contains(x) <==> exists|j: int|
                            0 <= j < i + 1 && (#[trigger] all[j]).dom().contains(target@)
                                && all[j][target@] == x by {
                        if before.contains(x) {
                            let j = choose|j: int|
                                0 <= j < i && (#[trigger] all[j]).dom().contains(target@)
                                    && all[j][target@] == x;
                            assert(0 <= j < i + 1 && all[j].dom().contains(target@));
                        }
                    }
                }
            },
        }
        i += 1;
    }
    assert(set@ =~= target_iids(all, target@));
    set
}

fn matched_edges(stmt: &MutateStmt, rows: &Vec<Row>) -> (r: Result<
    SortedMap<Iid, (Iid, Iid)>,
    EngineError,
>)
    requires
        rows_wf(rows@),
    ensures
        match r {
            Ok(m) => m.wf() && edge_rows(
                views(rows@),
                stmt.match_part@,
                stmt.target@,
                stmt.kind,
            ) == Ok::<EdgeEnds, ErrorView>(m@),
            Err(e) => edge_rows(views(rows@), stmt.match_part@, stmt.target@, stmt.kind) == Err::<
                EdgeEnds,
                ErrorView,
            >(e@),
        },
{
    let ghost all = views(rows@);
    let ghost step = |m: EdgeEnds, row: Map<Seq<char>, Iid>|
        edge_row(m, row, stmt.match_part@, stmt.target@, stmt.kind);
    let ghost none = Map::<Iid, (Iid, Iid)>::empty();
    let mut edges: SortedMap<Iid, (Iid, Iid)> = SortedMap::new();
    let mut i: usize = 0;
    proof {
        lemma_try_fold_all(all, none, step);
    }
    while i < rows.len()
        invariant
            i <= rows.len(),
            rows_wf(rows@),
            all == views(rows@),
            none == Map::<Iid, (Iid, Iid)>::empty(),
            step == (|m: EdgeEnds, row: Map<Seq<char>, Iid>|
                edge_row(m, row, stmt.match_part@, stmt.target@, stmt.kind)),
            edges.wf(),
            try_fold(all.subrange(0, i as int), none, step) == Ok::<EdgeEnds, ErrorView>(edges@),
        decreases rows.len() - i,
    {
        proof {
            lemma_try_fold_step(all, none, step, i as int);
            if try_fold(all.subrange(0, i + 1), none, step) is Err {
                lemma_try_fold_fails(all, none, step, i + 1);
            }
            assert(all[i as int] == rows@[i as int]@);
        }
        match rows[i].get(&stmt.target) {
            None => {},
            Some(iid) => {
                let iid = *iid;
                match edge_endpoints_from_match_row(
                    &stmt.match_part,
                    stmt.target.as_str(),
                    &rows[i],
                ) {
                    Err(e) => {
                        return Err(e);
                    },
                    Ok(ends) => {
                        match edges.insert(iid, ends) {
                            Some(existing) => {
                                if existing.0 != ends.0 || existing.1 != ends.1 {
                                    return Err(
                                        EngineError::Unsupported(
                                            concat4(
                                                mutation_name(stmt.kind),
                                                " edge variable '",
                                                stmt.target.as_str(),
                                                "' matched conflicting endpoints",
                                            ),
                                        ),
                                    );
                                }
                            },
                            None => {},
                        }
                    },
                }
            },
        }
        i += 1;
    }
    proof {
        lemma_try_fold_all(all, none, step);
    }
    Ok(edges)
}

fn note_incident(
    edges: &mut SortedMap<Iid, (Iid, Iid)>,
    entries: &Vec<AdjEntry>,
    dir: AdjDirection,
)
    requires
        old(edges).wf(),
    ensures
        final(edges).wf(),
        final(edges)@ == add_incident(old(edges)@, entries@, dir),
{
    let ghost start = edges@;
    let ghost step = |m: EdgeEnds, e: AdjEntry| m.insert(e.edge, e.ends(dir));
    let mut i: usize = 0;
    proof {
        lemma_fold_all(entries@, start, step);
    }
    while i < entries.len()
        invariant
            i <= entries.len(),
            edges.wf(),
            step == (|m: EdgeEnds, e: AdjEntry| m.insert(e.edge, e.ends(dir))),
            edges@ == fold(entries@.subrange(0, i as int), start, step),
        decreases entries.len() - i,
    {
        proof {
            lemma_fold_step(entries@, start, step, i as int);
        }
        let entry = entries[i];
        let ends = match dir {
            AdjDirection::Out => (entry.node, entry.neighbor),
            AdjDirection::In => (entry.neighbor, entry.node),
        };
        edges.insert(entry.edge, ends);
        i += 1;
    }
    proof {
        lemma_fold_all(entries@, start, step);
    }
}

pub fn incident_of(nodes: &SortedSet<Iid>, incident: &IncidentEdges) -> (r: SortedMap<Iid, (Iid, Iid)>)
    requires
        nodes.wf(),
        incident.wf(),
    ensures
        r.wf(),
        r@ == incident_edges_of(nodes@, *incident),
        forall|node: Iid, edge: Iid, ends: (Iid, Iid)|
            nodes@.contains(node) && #[trigger] listed_at(*incident, node, edge, ends)
                ==> r@.dom().contains(edge),
        forall|edge: Iid| #[trigger]
            r@.dom().contains(edge) ==> exists|node: Iid|
                nodes@.contains(node) && #[trigger] listed_at(*incident, node, edge, r@[edge]),
{
    let ghost items = nodes.items();
    let ghost none = Map::<Iid, (Iid, Iid)>::empty();
    let ghost step = |m: EdgeEnds, n: Iid| add_incident_of(m, n, *incident);
    let mut edges: SortedMap<Iid, (Iid, Iid)> = SortedMap::new();
    let n = nodes.len();
    let mut i: usize = 0;
    proof {
        lemma_set_items_sorted(*nodes);
        lemma_fold_all(items, none, step);
    }
    while i < n
        invariant
            i <= n,
            n == items.len(),
            items == nodes.items(),
            incident.wf(),
            edges.wf(),
            step == (|m: EdgeEnds, n: Iid| add_incident_of(m, n, *incident)),
            edges@ == fold(items.subrange(0, i as int), none, step),
        decreases n - i,
    {
        proof {
            lemma_fold_step(items, none, step, i as int);
        }
        let node = *nodes.item_at(i);
        let ghost before = edges@;
        proof {
            lemma_fold_all(
                Seq::<AdjEntry>::empty(),
                before,
                |m: EdgeEnds, e: AdjEntry| m.insert(e.edge, e.ends(AdjDirection::Out)),
            );
        }
        match incident.out.get(&node) {
            Some(entries) => {
                note_incident(&mut edges, entries, AdjDirection::Out);
            },
            None => {},
        }
        assert(edges@ == add_incident(
            before,
            incident.of(AdjDirection::Out, node),
            AdjDirection::Out,
        ));
        match incident.into.get(&node) {
            Some(entries) => {
                note_incident(&mut edges, entries, AdjDirection::In);
            },
            None => {},
        }
        assert(edges@ == add_incident_of(before, node, *incident));
        i += 1;
    }
    proof {
        lemma_fold_all(items, none, step);
        lemma_set_items(*nodes);
        law_attached_edges_are_those_listed(nodes@, *incident);
    }
    edges
}

pub fn record_edges_gone(
    edges: &SortedMap<Iid, (Iid, Iid)>,
    visible: &Visible,
    kind: MutKind,
    system: Instant,
) -> (r: Effects)
    requires
        edges.wf(),
        visible.wf(),
    ensures
        r.wf(),
        r@ == edges_gone(edges@, *visible, kind, system),
{
    let mut effects = Effects::new();
    let ghost keys = edges.keys();
    let ghost step = |eff: EffectsView, iid: Iid|
        edge_gone(eff, iid, edges@[iid], *visible, kind, system);
    let n = edges.len();
    let mut i: usize = 0;
    proof {
        lemma_map_keys_sorted(*edges);
        lemma_sorted_domain(*edges);
        lemma_fold_all(keys, EffectsView::empty(), step);
    }
    while i < n
        invariant
            i <= n,
            n == keys.len(),
            keys == edges.keys(),
            edges.wf(),
            visible.wf(),
            effects.wf(),
            forall|k: int| 0 <= k < keys.len() ==> edges@[#[trigger] keys[k]] == edges.values()[k],
            step == (|eff: EffectsView, iid: Iid|
                edge_gone(eff, iid, edges@[iid], *visible, kind, system)),
            effects@ == fold(keys.subrange(0, i as int), EffectsView::empty(), step),
        decreases n - i,
    {
        proof {
            lemma_fold_step(keys, EffectsView::empty(), step, i as int);
        }
        let iid = *edges.key_at(i);
        let ends = *edges.value_at(i);
        match visible.get(BindingKind::Edge, iid) {
            Some(p) => {
                effects.record_edge_delete(&p.doc);
            },
            None => {},
        }
        effects.push_edge(make_gone_event(iid, Some(ends), kind, system));
        i += 1;
    }
    proof {
        lemma_fold_all(keys, EffectsView::empty(), step);
    }
    effects
}

pub fn record_nodes_gone(
    effects: &mut Effects,
    nodes: &SortedSet<Iid>,
    visible: &Visible,
    kind: MutKind,
    system: Instant,
)
    requires
        old(effects).wf(),
        nodes.wf(),
        visible.wf(),
    ensures
        final(effects).wf(),
        final(effects)@ == nodes_gone(old(effects)@, nodes@, *visible, kind, system),
{
    let ghost items = nodes.items();
    let ghost start = effects@;
    let ghost step = |eff: EffectsView, iid: Iid| node_gone(eff, iid, *visible, kind, system);
    let n = nodes.len();
    let mut i: usize = 0;
    proof {
        lemma_set_items_sorted(*nodes);
        lemma_fold_all(items, start, step);
    }
    while i < n
        invariant
            i <= n,
            n == items.len(),
            items == nodes.items(),
            visible.wf(),
            effects.wf(),
            step == (|eff: EffectsView, iid: Iid| node_gone(eff, iid, *visible, kind, system)),
            effects@ == fold(items.subrange(0, i as int), start, step),
        decreases n - i,
    {
        proof {
            lemma_fold_step(items, start, step, i as int);
        }
        let iid = *nodes.item_at(i);
        match visible.get(BindingKind::Node, iid) {
            Some(p) => {
                effects.record_node_delete(&p.labels, &p.doc);
            },
            None => {},
        }
        effects.push_node(make_gone_event(iid, None, kind, system));
        i += 1;
    }
    proof {
        lemma_fold_all(items, start, step);
    }
}

/// Resolves a deletion. `rows` and `kinds` are what its `MATCH` bound,
/// `visible` the payloads of the elements concerned, and `incident` the edges
/// at the target nodes.
pub fn resolve_delete(
    stmt: &MutateStmt,
    rows: &Vec<Row>,
    kinds: &Kinds,
    visible: &Visible,
    incident: &IncidentEdges,
    system: Instant,
) -> (r: Result<Effects, EngineError>)
    requires
        rows_wf(rows@),
        kinds.wf(),
        visible.wf(),
        incident.wf(),
    ensures
        match r {
            Ok(eff) => eff.wf() && delete_spec(
                *stmt,
                views(rows@),
                kinds@,
                *visible,
                *incident,
                system,
            ) == Ok::<EffectsView, ErrorView>(eff@),
            Err(e) => delete_spec(*stmt, views(rows@), kinds@, *visible, *incident, system)
                == Err::<EffectsView, ErrorView>(e@),
        },
{
    let target_kind = match kinds.get(&stmt.target) {
        Some(k) => *k,
        None => {
            return Err(EngineError::UnboundVariable(stmt.target.clone()));
        },
    };
    match target_kind {
        BindingKind::Edge => match matched_edges(stmt, rows) {
            Err(e) => Err(e),
            Ok(edges) => Ok(record_edges_gone(&edges, visible, stmt.kind, system)),
        },
        BindingKind::Node => {
            let nodes = target_elements(rows, &stmt.target);
            let attached = incident_of(&nodes, incident);
            proof {
                lemma_sorted_domain(attached);
            }
            if !stmt.detach && attached.len() > 0 {
                return Err(EngineError::StillConnected(attached.len()));
            }
            let mut effects = record_edges_gone(&attached, visible, stmt.kind, system);
            record_nodes_gone(&mut effects, &nodes, visible, stmt.kind, system);
            Ok(effects)
        },
    }
}

/// A deletion that matches nothing does nothing.
pub proof fn law_no_match_no_effects(
    stmt: MutateStmt,
    kinds: Map<Seq<char>, BindingKind>,
    visible: Visible,
    incident: IncidentEdges,
    system: Instant,
)
    requires
        kinds.dom().contains(stmt.target@),
    ensures
        delete_spec(stmt, Seq::empty(), kinds, visible, incident, system) == Ok::<
            EffectsView,
            ErrorView,
        >(EffectsView::empty()),
{
    let none = Seq::<Iid>::empty();
    assert(none.to_set() =~= Set::<Iid>::empty());
    lemma_sorted_seq::<Iid>(none);
    let rows = Seq::<Map<Seq<char>, Iid>>::empty();
    assert(target_iids(rows, stmt.target@) =~= Set::<Iid>::empty());
    assert(incident_edges_of(Set::<Iid>::empty(), incident) =~= Map::<Iid, (Iid, Iid)>::empty());
    assert(Map::<Iid, (Iid, Iid)>::empty().dom() =~= Set::<Iid>::empty());
}

pub proof fn lemma_edges_gone(
    edges: EdgeEnds,
    iids: Seq<Iid>,
    visible: Visible,
    kind: MutKind,
    system: Instant,
)
    ensures
        fold(
            iids,
            EffectsView::empty(),
            |eff: EffectsView, iid: Iid| edge_gone(eff, iid, edges[iid], visible, kind, system),
        ).edges == iids.map_values(
            |iid: Iid| gone_event(iid, Some(edges[iid]), kind, system),
        ),
    decreases iids.len(),
{
    let gone = |iid: Iid| gone_event(iid, Some(edges[iid]), kind, system);
    if iids.len() > 0 {
        let front = iids.drop_last();
        lemma_edges_gone(edges, front, visible, kind, system);
        assert(iids.map_values(gone) =~= front.map_values(gone).push(gone(iids.last())));
    } else {
        assert(iids.map_values(gone) =~= Seq::empty());
    }
}

pub proof fn lemma_nodes_keep_edges(
    eff: EffectsView,
    iids: Seq<Iid>,
    visible: Visible,
    kind: MutKind,
    system: Instant,
)
    ensures
        fold(
            iids,
            eff,
            |eff: EffectsView, iid: Iid| node_gone(eff, iid, visible, kind, system),
        ).edges == eff.edges,
    decreases iids.len(),
{
    if iids.len() > 0 {
        lemma_nodes_keep_edges(eff, iids.drop_last(), visible, kind, system);
    }
}

proof fn lemma_add_incident_finite(m: EdgeEnds, entries: Seq<AdjEntry>, dir: AdjDirection)
    requires
        m.dom().finite(),
    ensures
        add_incident(m, entries, dir).dom().finite(),
    decreases entries.len(),
{
    if entries.len() > 0 {
        lemma_add_incident_finite(m, entries.drop_last(), dir);
    }
}

proof fn lemma_incident_finite(nodes: Seq<Iid>, incident: IncidentEdges)
    ensures
        fold(
            nodes,
            Map::<Iid, (Iid, Iid)>::empty(),
            |m: EdgeEnds, n: Iid| add_incident_of(m, n, incident),
        ).dom().finite(),
    decreases nodes.len(),
{
    if nodes.len() > 0 {
        lemma_incident_finite(nodes.drop_last(), incident);
        let n = nodes.last();
        let m = fold(
            nodes.drop_last(),
            Map::<Iid, (Iid, Iid)>::empty(),
            |m: EdgeEnds, n: Iid| add_incident_of(m, n, incident),
        );
        let out = incident.of(AdjDirection::Out, n);
        lemma_add_incident_finite(m, out, AdjDirection::Out);
        lemma_add_incident_finite(
            add_incident(m, out, AdjDirection::Out),
            incident.of(AdjDirection::In, n),
            AdjDirection::In,
        );
    }
}

/// Nodes that are deleted together with their edges leave no edge behind: each
/// edge that was found at one of them is gone too.
pub proof fn law_detached_nodes_leave_no_edge(
    stmt: MutateStmt,
    rows: Seq<Map<Seq<char>, Iid>>,
    kinds: Map<Seq<char>, BindingKind>,
    visible: Visible,
    incident: IncidentEdges,
    system: Instant,
    edge: Iid,
)
    requires
        kinds.dom().contains(stmt.target@),
        kinds[stmt.target@] == BindingKind::Node,
        stmt.detach,
        incident_edges_of(target_iids(rows, stmt.target@), incident).dom().contains(edge),
    ensures
        delete_spec(stmt, rows, kinds, visible, incident, system) matches Ok(eff)
            && eff.edges.contains(
            gone_event(
                edge,
                Some(incident_edges_of(target_iids(rows, stmt.target@), incident)[edge]),
                stmt.kind,
                system,
            ),
        ),
{
    let nodes = target_iids(rows, stmt.target@);
    let edges = incident_edges_of(nodes, incident);
    let iids = sorted_seq::<Iid>(edges.dom());
    lemma_incident_finite(sorted_seq::<Iid>(nodes), incident);
    lemma_sorted_exists::<Iid>(edges.dom());
    lemma_edges_gone(edges, iids, visible, stmt.kind, system);
    lemma_nodes_keep_edges(
        edges_gone(edges, visible, stmt.kind, system),
        sorted_seq::<Iid>(nodes),
        visible,
        stmt.kind,
        system,
    );
    let gone = |iid: Iid| gone_event(iid, Some(edges[iid]), stmt.kind, system);
    assert(iids.to_set().contains(edge));
    assert(iids.contains(edge));
    let k = iids.index_of(edge);
    assert(iids.map_values(gone)[k] == gone(edge));
}

/// The edge stands with these ends among the outgoing or among the incoming
/// edges of the node.
pub open spec fn listed_at(incident: IncidentEdges, node: Iid, edge: Iid, ends: (Iid, Iid)) -> bool {
    ||| (incident.out@.dom().contains(node) && exists|i: int|
        0 <= i < incident.out@[node]@.len() && (#[trigger] incident.out@[node]@[i]).edge == edge
            && ends == (incident.out@[node]@[i].node, incident.out@[node]@[i].neighbor))
    ||| (incident.into@.dom().contains(node) && exists|i: int|
        0 <= i < incident.into@[node]@.len() && (#[trigger] incident.into@[node]@[i]).edge == edge
            && ends == (incident.into@[node]@[i].neighbor, incident.into@[node]@[i].node))
}

proof fn lemma_add_incident(m: EdgeEnds, entries: Seq<AdjEntry>, dir: AdjDirection)
    ensures
        forall|x: Iid| #[trigger] m.dom().contains(x) ==> add_incident(m, entries, dir).dom().contains(x),
        forall|i: int|
            0 <= i < entries.len() ==> add_incident(m, entries, dir).dom().contains(
                (#[trigger] entries[i]).edge,
            ),
        forall|x: Iid| #[trigger]
            add_incident(m, entries, dir).dom().contains(x) ==> (m.dom().contains(x)
                && add_incident(m, entries, dir)[x] == m[x]) || exists|i: int|
                0 <= i < entries.len() && (#[trigger] entries[i]).edge == x && add_incident(
                    m,
                    entries,
                    dir,
                )[x] == entries[i].ends(dir),
    decreases entries.len(),
{
    if entries.len() > 0 {
        let front = entries.drop_last();
        let last = entries.last();
        let before = add_incident(m, front, dir);
        let after = add_incident(m, entries, dir);
        lemma_add_incident(m, front, dir);
        assert(after == before.insert(last.edge, last.ends(dir)));
        assert forall|i: int| 0 <= i < entries.len() implies after.dom().contains(
            (#[trigger] entries[i]).edge,
        ) by {
            if i < front.len() {
                assert(front[i] == entries[i]);
            }
        }
        assert forall|x: Iid| #[trigger] after.dom().contains(x) implies (m.dom().contains(x)
            && after[x] == m[x]) || exists|i: int|
            0 <= i < entries.len() && (#[trigger] entries[i]).edge == x && after[x]
                == entries[i].ends(dir) by {
            if x == last.edge {
                assert(entries[entries.len() - 1].edge == x);
            } else {
                assert(before.dom().contains(x));
                if !(m.dom().contains(x) && before[x] == m[x]) {
                    let i = choose|i: int|
                        0 <= i < front.len() && (#[trigger] front[i]).edge == x && before[x]
                            == front[i].ends(dir);
                    assert(entries[i].edge == x);
                }
            }
        }
    }
}

proof fn lemma_add_incident_of(m: EdgeEnds, node: Iid, incident: IncidentEdges)
    ensures
        forall|x: Iid| #[trigger]
            m.dom().contains(x) ==> add_incident_of(m, node, incident).dom().contains(x),
        forall|x: Iid, ends: (Iid, Iid)| #[trigger]
            listed_at(incident, node, x, ends) ==> add_incident_of(
                m,
                node,
                incident,
            ).dom().contains(x),
        forall|x: Iid| #[trigger]
            add_incident_of(m, node, incident).dom().contains(x) ==> (m.dom().contains(x)
                && add_incident_of(m, node, incident)[x] == m[x]) || listed_at(
                incident,
                node,
                x,
                add_incident_of(m, node, incident)[x],
            ),
{
    let out = incident.of(AdjDirection::Out, node);
    let into = incident.of(AdjDirection::In, node);
    let half = add_incident(m, out, AdjDirection::Out);
    let all = add_incident_of(m, node, incident);
    lemma_add_incident(m, out, AdjDirection::Out);
    lemma_add_incident(half, into, AdjDirection::In);
    assert forall|x: Iid, ends: (Iid, Iid)| #[trigger]
        listed_at(incident, node, x, ends) implies all.dom().contains(x) by {
        if incident.out@.dom().contains(node) && exists|i: int|
            0 <= i < incident.out@[node]@.len() && (#[trigger] incident.out@[node]@[i]).edge == x
                && ends == (incident.out@[node]@[i].node, incident.out@[node]@[i].neighbor) {
            let i = choose|i: int|
                0 <= i < incident.out@[node]@.len() && (#[trigger] incident.out@[node]@[i]).edge
                    == x && ends == (
                    incident.out@[node]@[i].node,
                    incident.out@[node]@[i].neighbor,
                );
            assert(out[i].edge == x);
            assert(half.dom().contains(x));
        } else {
            let i = choose|i: int|
                0 <= i < incident.into@[node]@.len() && (#[trigger] incident.into@[node]@[i]).edge
                    == x && ends == (
                    incident.into@[node]@[i].neighbor,
                    incident.into@[node]@[i].node,
                );
            assert(into[i].edge == x);
        }
    }
    assert forall|x: Iid| #[trigger] all.dom().contains(x) implies (m.dom().contains(x) && all[x]
        == m[x]) || listed_at(incident, node, x, all[x]) by {
        if half.dom().contains(x) && all[x] == half[x] {
            if !(m.dom().contains(x) && half[x] == m[x]) {
                let i = choose|i: int|
                    0 <= i < out.len() && (#[trigger] out[i]).edge == x && half[x] == out[i].ends(
                        AdjDirection::Out,
                    );
                assert(incident.out@.dom().contains(node));
                assert(incident.out@[node]@[i].edge == x);
            }
        } else {
            let i = choose|i: int|
                0 <= i < into.len() && (#[trigger] into[i]).edge == x && all[x] == into[i].ends(
                    AdjDirection::In,
                );
            assert(incident.into@.dom().contains(node));
            assert(incident.into@[node]@[i].edge == x);
        }
    }
}

proof fn lemma_attached(nodes: Seq<Iid>, incident: IncidentEdges)
    ensures
        ({
            let all = fold(
                nodes,
                Map::<Iid, (Iid, Iid)>::empty(),
                |m: EdgeEnds, n: Iid| add_incident_of(m, n, incident),
            );
            &&& forall|k: int, x: Iid, ends: (Iid, Iid)|
                0 <= k < nodes.len() && #[trigger] listed_at(incident, nodes[k], x, ends)
                    ==> all.dom().contains(x)
            &&& forall|x: Iid| #[trigger]
                all.dom().contains(x) ==> exists|k: int|
                    0 <= k < nodes.len() && listed_at(incident, #[trigger] nodes[k], x, all[x])
        }),
    decreases nodes.len(),
{
    let step = |m: EdgeEnds, n: Iid| add_incident_of(m, n, incident);
    let none = Map::<Iid, (Iid, Iid)>::empty();
    let all = fold(nodes, none, step);
    if nodes.len() > 0 {
        let front = nodes.drop_last();
        let before = fold(front, none, step);
        lemma_attached(front, incident);
        lemma_add_incident_of(before, nodes.last(), incident);
        assert(all == add_incident_of(before, nodes.last(), incident));
        assert forall|k: int, x: Iid, ends: (Iid, Iid)|
            0 <= k < nodes.len() && #[trigger] listed_at(
                incident,
                nodes[k],
                x,
                ends,
            ) implies all.dom().contains(x) by {
            if k < front.len() {
                assert(listed_at(incident, front[k], x, ends));
                assert(before.dom().contains(x));
            }
        }
        assert forall|x: Iid| #[trigger] all.dom().contains(x) implies exists|k: int|
            0 <= k < nodes.len() && listed_at(incident, #[trigger] nodes[k], x, all[x]) by {
            if before.dom().contains(x) && all[x] == before[x] {
                let k = choose|k: int|
                    0 <= k < front.len() && listed_at(incident, #[trigger] front[k], x, before[x]);
                assert(nodes[k] == front[k]);
                assert(listed_at(incident, nodes[k], x, all[x]));
            } else {
                assert(listed_at(incident, nodes[nodes.len() - 1], x, all[x]));
            }
        }
    }
}

/// The edges attached to some nodes are exactly those that stand among the
/// outgoing or the incoming edges of one of them, each with the ends under
/// which it stands there.
pub proof fn law_attached_edges_are_those_listed(nodes: Set<Iid>, incident: IncidentEdges)
    requires
        nodes.finite(),
    ensures
        incident_edges_of(nodes, incident).dom().finite(),
        forall|node: Iid, edge: Iid, ends: (Iid, Iid)|
            nodes.contains(node) && #[trigger] listed_at(incident, node, edge, ends)
                ==> incident_edges_of(nodes, incident).dom().contains(edge),
        forall|edge: Iid| #[trigger]
            incident_edges_of(nodes, incident).dom().contains(edge) ==> exists|node: Iid|
                nodes.contains(node) && #[trigger] listed_at(
                    incident,
                    node,
                    edge,
                    incident_edges_of(nodes, incident)[edge],
                ),
{
    let items = sorted_seq::<Iid>(nodes);
    let all = incident_edges_of(nodes, incident);
    lemma_sorted_exists::<Iid>(nodes);
    lemma_attached(items, incident);
    lemma_incident_finite(items, incident);
    assert forall|node: Iid, edge: Iid, ends: (Iid, Iid)|
        nodes.contains(node) && #[trigger] listed_at(
            incident,
            node,
            edge,
            ends,
        ) implies all.dom().contains(edge) by {
        assert(items.to_set().contains(node));
        let k = items.index_of(node);
        assert(listed_at(incident, items[k], edge, ends));
    }
    assert forall|edge: Iid| #[trigger] all.dom().contains(edge) implies exists|node: Iid|
        nodes.contains(node) && #[trigger] listed_at(incident, node, edge, all[edge]) by {
        let k = choose|k: int|
            0 <= k < items.len() && listed_at(incident, #[trigger] items[k], edge, all[edge]);
        assert(items.to_set().contains(items[k]));
    }
}

proof fn lemma_targets_finite(rows: Seq<Map<Seq<char>, Iid>>, target: Seq<char>)
    ensures
        target_iids(rows, target).finite(),
    decreases rows.len(),
{
    if rows.len() == 0 {
        assert(target_iids(rows, target) =~= Set::<Iid>::empty());
    } else {
        let front = rows.drop_last();
        let last = rows.last();
        lemma_targets_finite(front, target);
        let more = target_iids(front, target).insert(last[target]);
        assert forall|x: Iid| target_iids(rows, target).contains(x) implies more.contains(x) by {
            let i = choose|i: int|
                0 <= i < rows.len() && (#[trigger] rows[i]).dom().contains(target)
                    && rows[i][target] == x;
            if i < front.len() {
                assert(front[i].dom().contains(target));
            }
        }
        vstd::set_lib::lemma_set_subset_finite(more, target_iids(rows, target));
    }
}

/// Without `DETACH` nodes go only where none of them has an outgoing or an
/// incoming edge; where one has, nothing goes, and the failure says how many
/// edges are in the way. With `DETACH` nothing is in the way.
pub proof fn law_connected_nodes_do_not_go(
    stmt: MutateStmt,
    rows: Seq<Map<Seq<char>, Iid>>,
    kinds: Map<Seq<char>, BindingKind>,
    visible: Visible,
    incident: IncidentEdges,
    system: Instant,
)
    requires
        kinds.dom().contains(stmt.target@),
        kinds[stmt.target@] == BindingKind::Node,
    ensures
        delete_spec(stmt, rows, kinds, visible, incident, system) is Ok <==> stmt.detach || forall|
            i: int,
        |
            0 <= i < rows.len() && (#[trigger] rows[i]).dom().contains(stmt.target@) ==> ({
                let n = rows[i][stmt.target@];
                &&& (incident.out@.dom().contains(n) ==> incident.out@[n]@.len() == 0)
                &&& (incident.into@.dom().contains(n) ==> incident.into@[n]@.len() == 0)
            }),
        delete_spec(stmt, rows, kinds, visible, incident, system) matches Err(e) ==> (
        e matches ErrorView::StillConnected(_)),
{
    let nodes = target_iids(rows, stmt.target@);
    let all = incident_edges_of(nodes, incident);
    lemma_targets_finite(rows, stmt.target@);
    law_attached_edges_are_those_listed(nodes, incident);
    if all.dom().len() > 0 {
        let edge = all.dom().choose();
        assert(all.dom().contains(edge));
        let node = choose|node: Iid|
            nodes.contains(node) && #[trigger] listed_at(incident, node, edge, all[edge]);
        let i = choose|i: int|
            0 <= i < rows.len() && (#[trigger] rows[i]).dom().contains(stmt.target@)
                && rows[i][stmt.target@] == node;
        assert(rows[i].dom().contains(stmt.target@));
    } else {
        assert(all.dom() =~= Set::<Iid>::empty());
        assert forall|i: int|
            0 <= i < rows.len() && (#[trigger] rows[i]).dom().contains(stmt.target@) implies ({
            let n = rows[i][stmt.target@];
            &&& (incident.out@.dom().contains(n) ==> incident.out@[n]@.len() == 0)
            &&& (incident.into@.dom().contains(n) ==> incident.into@[n]@.len() == 0)
        }) by {
            let n = rows[i][stmt.target@];
            assert(nodes.contains(n));
            if incident.out@.dom().contains(n) && incident.out@[n]@.len() > 0 {
                let e = incident.out@[n]@[0];
                assert(listed_at(incident, n, e.edge, (e.node, e.neighbor)));
            }
            if incident.into@.dom().contains(n) && incident.into@[n]@.len() > 0 {
                let e = incident.into@[n]@[0];
                assert(listed_at(incident, n, e.edge, (e.neighbor, e.node)));
            }
        }
    }
}

/// The event takes the element away as the statement says: a deletion from now
/// on, an erasure from the beginning of time, both without end.
pub open spec fn takes_away(e: EventView, kind: MutKind, system: Instant) -> bool {
    &&& e.system_from == system
    &&& e.valid_to.us == i64::MAX
    &&& (kind is Delete ==> e.op is Delete && e.valid_from == system)
    &&& (kind is Erase ==> e.op is Erase && e.valid_from.us == i64::MIN)
}

pub proof fn lemma_nodes_gone(
    eff: EffectsView,
    iids: Seq<Iid>,
    visible: Visible,
    kind: MutKind,
    system: Instant,
)
    ensures
        ({
            let after = fold(
                iids,
                eff,
                |eff: EffectsView, iid: Iid| node_gone(eff, iid, visible, kind, system),
            );
            &&& after.nodes == eff.nodes + iids.map_values(
                |iid: Iid| gone_event(iid, None, kind, system),
            )
            &&& after.catalog_ops == eff.catalog_ops
        }),
    decreases iids.len(),
{
    let gone = |iid: Iid| gone_event(iid, None, kind, system);
    if iids.len() > 0 {
        let front = iids.drop_last();
        lemma_nodes_gone(eff, front, visible, kind, system);
        assert(eff.nodes + iids.map_values(gone) =~= (eff.nodes + front.map_values(gone)).push(
            gone(iids.last()),
        ));
    } else {
        assert(eff.nodes + iids.map_values(gone) =~= eff.nodes);
    }
}

pub proof fn lemma_edges_keep_nodes(
    edges: EdgeEnds,
    iids: Seq<Iid>,
    visible: Visible,
    kind: MutKind,
    system: Instant,
)
    ensures
        ({
            let after = fold(
                iids,
                EffectsView::empty(),
                |eff: EffectsView, iid: Iid| edge_gone(eff, iid, edges[iid], visible, kind, system),
            );
            &&& after.nodes == Seq::<EventView>::empty()
            &&& after.catalog_ops == Seq::<CatalogOpView>::empty()
        }),
    decreases iids.len(),
{
    if iids.len() > 0 {
        lemma_edges_keep_nodes(edges, iids.drop_last(), visible, kind, system);
    }
}

proof fn lemma_nodes_and_edges(
    stmt: MutateStmt,
    rows: Seq<Map<Seq<char>, Iid>>,
    kinds: Map<Seq<char>, BindingKind>,
    visible: Visible,
    incident: IncidentEdges,
    system: Instant,
)
    requires
        kinds.dom().contains(stmt.target@),
        kinds[stmt.target@] == BindingKind::Node,
        delete_spec(stmt, rows, kinds, visible, incident, system) is Ok,
    ensures
        ({
            let eff = delete_spec(stmt, rows, kinds, visible, incident, system)->Ok_0;
            let nodes = target_iids(rows, stmt.target@);
            let edges = incident_edges_of(nodes, incident);
            let ns = sorted_seq::<Iid>(nodes);
            let es = sorted_seq::<Iid>(edges.dom());
            &&& ns.to_set() == nodes
            &&& es.to_set() == edges.dom()
            &&& ascending::<Iid>(ns)
            &&& ascending::<Iid>(es)
            &&& eff.nodes == ns.map_values(|iid: Iid| gone_event(iid, None, stmt.kind, system))
            &&& eff.edges == es.map_values(
                |iid: Iid| gone_event(iid, Some(edges[iid]), stmt.kind, system),
            )
            &&& eff.catalog_ops.len() == 0
        }),
{
    let nodes = target_iids(rows, stmt.target@);
    let edges = incident_edges_of(nodes, incident);
    let eff = delete_spec(stmt, rows, kinds, visible, incident, system)->Ok_0;
    let half = edges_gone(edges, visible, stmt.kind, system);
    let ns = sorted_seq::<Iid>(nodes);
    let es = sorted_seq::<Iid>(edges.dom());
    lemma_targets_finite(rows, stmt.target@);
    law_attached_edges_are_those_listed(nodes, incident);
    lemma_sorted_exists::<Iid>(nodes);
    lemma_sorted_exists::<Iid>(edges.dom());
    lemma_edges_gone(edges, es, visible, stmt.kind, system);
    lemma_edges_keep_nodes(edges, es, visible, stmt.kind, system);
    lemma_nodes_gone(half, ns, visible, stmt.kind, system);
    lemma_nodes_keep_edges(half, ns, visible, stmt.kind, system);
    let gone_node = |iid: Iid| gone_event(iid, None, stmt.kind, system);
    assert(eff.nodes =~= ns.map_values(gone_node));
}

/// Nodes that go: for each node that a row binds to the target there is one
/// event that takes it away, and for no other.
pub proof fn law_matched_nodes_go(
    stmt: MutateStmt,
    rows: Seq<Map<Seq<char>, Iid>>,
    kinds: Map<Seq<char>, BindingKind>,
    visible: Visible,
    incident: IncidentEdges,
    system: Instant,
)
    requires
        kinds.dom().contains(stmt.target@),
        kinds[stmt.target@] == BindingKind::Node,
        delete_spec(stmt, rows, kinds, visible, incident, system) is Ok,
    ensures
        ({
            let eff = delete_spec(stmt, rows, kinds, visible, incident, system)->Ok_0;
            let t = stmt.target@;
            &&& forall|i: int|
                0 <= i < rows.len() && (#[trigger] rows[i]).dom().contains(t) ==> exists|k: int|
                    0 <= k < eff.nodes.len() && (#[trigger] eff.nodes[k]).iid == rows[i][t]
            &&& forall|k: int|
                0 <= k < eff.nodes.len() ==> {
                    &&& takes_away(#[trigger] eff.nodes[k], stmt.kind, system)
                    &&& eff.nodes[k].src is None
                    &&& eff.nodes[k].dst is None
                    &&& exists|i: int|
                        0 <= i < rows.len() && (#[trigger] rows[i]).dom().contains(t) && rows[i][t]
                            == eff.nodes[k].iid
                }
            &&& forall|a: int, b: int|
                0 <= a < b < eff.nodes.len() ==> (#[trigger] eff.nodes[a]).iid.bits < (
                #[trigger] eff.nodes[b]).iid.bits
            &&& eff.catalog_ops.len() == 0
        }),
{
    let t = stmt.target@;
    let nodes = target_iids(rows, t);
    let eff = delete_spec(stmt, rows, kinds, visible, incident, system)->Ok_0;
    let ns = sorted_seq::<Iid>(nodes);
    lemma_nodes_and_edges(stmt, rows, kinds, visible, incident, system);
    let gone_node = |iid: Iid| gone_event(iid, None, stmt.kind, system);
    assert(eff.nodes == ns.map_values(gone_node));
    assert forall|i: int| 0 <= i < rows.len() && (#[trigger] rows[i]).dom().contains(
        t,
    ) implies exists|k: int|
        0 <= k < eff.nodes.len() && (#[trigger] eff.nodes[k]).iid == rows[i][t] by {
        let x = rows[i][t];
        assert(nodes.contains(x));
        assert(ns.to_set().contains(x));
        assert(eff.nodes[ns.index_of(x)].iid == x);
    }
    assert forall|k: int| 0 <= k < eff.nodes.len() implies ({
        &&& takes_away(#[trigger] eff.nodes[k], stmt.kind, system)
        &&& eff.nodes[k].src is None
        &&& eff.nodes[k].dst is None
        &&& exists|i: int|
            0 <= i < rows.len() && (#[trigger] rows[i]).dom().contains(t) && rows[i][t]
                == eff.nodes[k].iid
    }) by {
        assert(eff.nodes[k] == gone_node(ns[k]));
        assert(ns.to_set().contains(ns[k]));
    }
    assert forall|a: int, b: int| 0 <= a < b < eff.nodes.len() implies (
    #[trigger] eff.nodes[a]).iid.bits < (#[trigger] eff.nodes[b]).iid.bits by {
        assert(<Iid as OrderedKey>::less(ns[a], ns[b]));
    }
}

/// With the nodes goes every edge that stands among the outgoing or the incoming
/// edges of one of them: there is one event for it, with the ends under which it
/// stands there, and for no other edge.
pub proof fn law_nodes_go_with_their_edges(
    stmt: MutateStmt,
    rows: Seq<Map<Seq<char>, Iid>>,
    kinds: Map<Seq<char>, BindingKind>,
    visible: Visible,
    incident: IncidentEdges,
    system: Instant,
)
    requires
        kinds.dom().contains(stmt.target@),
        kinds[stmt.target@] == BindingKind::Node,
        delete_spec(stmt, rows, kinds, visible, incident, system) is Ok,
    ensures
        ({
            let eff = delete_spec(stmt, rows, kinds, visible, incident, system)->Ok_0;
            let t = stmt.target@;
            &&& forall|i: int, edge: Iid, ends: (Iid, Iid)|
                0 <= i < rows.len() && rows[i].dom().contains(t) && #[trigger] listed_at(
                    incident,
                    rows[i][t],
                    edge,
                    ends,
                ) ==> exists|k: int|
                    0 <= k < eff.edges.len() && (#[trigger] eff.edges[k]).iid == edge
            &&& forall|k: int|
                0 <= k < eff.edges.len() ==> {
                    &&& takes_away(#[trigger] eff.edges[k], stmt.kind, system)
                    &&& eff.edges[k].src is Some
                    &&& eff.edges[k].dst is Some
                    &&& exists|i: int|
                        0 <= i < rows.len() && (#[trigger] rows[i]).dom().contains(t) && listed_at(
                            incident,
                            rows[i][t],
                            eff.edges[k].iid,
                            (eff.edges[k].src->0, eff.edges[k].dst->0),
                        )
                }
            &&& forall|a: int, b: int|
                0 <= a < b < eff.edges.len() ==> (#[trigger] eff.edges[a]).iid.bits < (
                #[trigger] eff.edges[b]).iid.bits
        }),
{
    let t = stmt.target@;
    let nodes = target_iids(rows, t);
    let edges = incident_edges_of(nodes, incident);
    let eff = delete_spec(stmt, rows, kinds, visible, incident, system)->Ok_0;
    let es = sorted_seq::<Iid>(edges.dom());
    lemma_targets_finite(rows, t);
    law_attached_edges_are_those_listed(nodes, incident);
    lemma_nodes_and_edges(stmt, rows, kinds, visible, incident, system);
    let gone_edge = |iid: Iid| gone_event(iid, Some(edges[iid]), stmt.kind, system);
    assert(eff.edges == es.map_values(gone_edge));
    assert forall|i: int, edge: Iid, ends: (Iid, Iid)|
        0 <= i < rows.len() && rows[i].dom().contains(t) && #[trigger] listed_at(
            incident,
            rows[i][t],
            edge,
            ends,
        ) implies exists|k: int|
        0 <= k < eff.edges.len() && (#[trigger] eff.edges[k]).iid == edge by {
        assert(nodes.contains(rows[i][t]));
        assert(edges.dom().contains(edge));
        assert(es.to_set().contains(edge));
        assert(eff.edges[es.index_of(edge)].iid == edge);
    }
    assert forall|k: int| 0 <= k < eff.edges.len() implies ({
        &&& takes_away(#[trigger] eff.edges[k], stmt.kind, system)
        &&& eff.edges[k].src is Some
        &&& eff.edges[k].dst is Some
        &&& exists|i: int|
            0 <= i < rows.len() && (#[trigger] rows[i]).dom().contains(t) && listed_at(
                incident,
                rows[i][t],
                eff.edges[k].iid,
                (eff.edges[k].src->0, eff.edges[k].dst->0),
            )
    }) by {
        let x = es[k];
        assert(eff.edges[k] == gone_edge(x));
        assert(es.to_set().contains(x));
        assert(edges.dom().contains(x));
        let node = choose|node: Iid|
            nodes.contains(node) && #[trigger] listed_at(incident, node, x, edges[x]);
        let i = choose|i: int|
            0 <= i < rows.len() && (#[trigger] rows[i]).dom().contains(t) && rows[i][t] == node;
        assert(rows[i].dom().contains(t));
        assert(edges[x] == (edges[x].0, edges[x].1));
    }
    assert forall|a: int, b: int| 0 <= a < b < eff.edges.len() implies (
    #[trigger] eff.edges[a]).iid.bits < (#[trigger] eff.edges[b]).iid.bits by {
        assert(<Iid as OrderedKey>::less(es[a], es[b]));
    }
}

proof fn lemma_edge_rows(
    rows: Seq<Map<Seq<char>, Iid>>,
    paths: Seq<PathPattern>,
    target: Seq<char>,
    kind: MutKind,
)
    requires
        edge_rows(rows, paths, target, kind) is Ok,
    ensures
        ({
            let m = edge_rows(rows, paths, target, kind)->Ok_0;
            &&& m.dom().finite()
            &&& forall|i: int|
                0 <= i < rows.len() && (#[trigger] rows[i]).dom().contains(target)
                    ==> m.dom().contains(rows[i][target]) && endpoints_in_paths(
                    paths,
                    0,
                    target,
                    rows[i],
                ) == Ok::<(Iid, Iid), ErrorView>(m[rows[i][target]])
            &&& forall|x: Iid| #[trigger]
                m.dom().contains(x) ==> exists|i: int|
                    0 <= i < rows.len() && (#[trigger] rows[i]).dom().contains(target)
                        && rows[i][target] == x
        }),
    decreases rows.len(),
{
    if rows.len() > 0 {
        let front = rows.drop_last();
        let last = rows.last();
        lemma_edge_rows(front, paths, target, kind);
        let m = edge_rows(front, paths, target, kind)->Ok_0;
        let w = edge_rows(rows, paths, target, kind)->Ok_0;
        assert(edge_row(m, last, paths, target, kind) == Ok::<EdgeEnds, ErrorView>(w));
        assert forall|i: int|
            0 <= i < rows.len() && (#[trigger] rows[i]).dom().contains(
                target,
            ) implies w.dom().contains(rows[i][target]) && endpoints_in_paths(
            paths,
            0,
            target,
            rows[i],
        ) == Ok::<(Iid, Iid), ErrorView>(w[rows[i][target]]) by {
            if i < front.len() {
                assert(front[i].dom().contains(target));
            }
        }
        assert forall|x: Iid| #[trigger] w.dom().contains(x) implies exists|i: int|
            0 <= i < rows.len() && (#[trigger] rows[i]).dom().contains(target) && rows[i][target]
                == x by {
            if m.dom().contains(x) {
                let i = choose|i: int|
                    0 <= i < front.len() && (#[trigger] front[i]).dom().contains(target)
                        && front[i][target] == x;
                assert(rows[i].dom().contains(target));
            } else {
                assert(rows[rows.len() - 1].dom().contains(target));
            }
        }
    }
}

/// Edges that go: each edge that a row binds to the target goes once, with the
/// ends that its path gives it in that row, and nothing else goes.
pub proof fn law_matched_edges_go(
    stmt: MutateStmt,
    rows: Seq<Map<Seq<char>, Iid>>,
    kinds: Map<Seq<char>, BindingKind>,
    visible: Visible,
    incident: IncidentEdges,
    system: Instant,
)
    requires
        kinds.dom().contains(stmt.target@),
        kinds[stmt.target@] == BindingKind::Edge,
        delete_spec(stmt, rows, kinds, visible, incident, system) is Ok,
    ensures
        ({
            let eff = delete_spec(stmt, rows, kinds, visible, incident, system)->Ok_0;
            let t = stmt.target@;
            &&& eff.nodes.len() == 0
            &&& eff.catalog_ops.len() == 0
            &&& forall|i: int|
                0 <= i < rows.len() && (#[trigger] rows[i]).dom().contains(t) ==> exists|k: int|
                    0 <= k < eff.edges.len() && (#[trigger] eff.edges[k]).iid == rows[i][t]
                        && eff.edges[k].src is Some && eff.edges[k].dst is Some
                        && endpoints_in_paths(stmt.match_part@, 0, t, rows[i]) == Ok::<
                        (Iid, Iid),
                        ErrorView,
                    >((eff.edges[k].src->0, eff.edges[k].dst->0))
            &&& forall|k: int|
                0 <= k < eff.edges.len() ==> takes_away(
                    #[trigger] eff.edges[k],
                    stmt.kind,
                    system,
                ) && exists|i: int|
                    0 <= i < rows.len() && (#[trigger] rows[i]).dom().contains(t) && rows[i][t]
                        == eff.edges[k].iid
            &&& forall|a: int, b: int|
                0 <= a < b < eff.edges.len() ==> (#[trigger] eff.edges[a]).iid.bits < (
                #[trigger] eff.edges[b]).iid.bits
        }),
{
    let t = stmt.target@;
    let edges = edge_rows(rows, stmt.match_part@, t, stmt.kind)->Ok_0;
    let eff = delete_spec(stmt, rows, kinds, visible, incident, system)->Ok_0;
    let es = sorted_seq::<Iid>(edges.dom());
    lemma_edge_rows(rows, stmt.match_part@, t, stmt.kind);
    lemma_sorted_exists::<Iid>(edges.dom());
    lemma_edges_gone(edges, es, visible, stmt.kind, system);
    lemma_edges_keep_nodes(edges, es, visible, stmt.kind, system);
    let gone_edge = |iid: Iid| gone_event(iid, Some(edges[iid]), stmt.kind, system);
    assert(eff.edges == es.map_values(gone_edge));
    assert forall|i: int| 0 <= i < rows.len() && (#[trigger] rows[i]).dom().contains(
        t,
    ) implies exists|k: int|
        0 <= k < eff.edges.len() && (#[trigger] eff.edges[k]).iid == rows[i][t]
            && eff.edges[k].src is Some && eff.edges[k].dst is Some && endpoints_in_paths(
            stmt.match_part@,
            0,
            t,
            rows[i],
        ) == Ok::<(Iid, Iid), ErrorView>((eff.edges[k].src->0, eff.edges[k].dst->0)) by {
        let x = rows[i][t];
        assert(edges.dom().contains(x));
        assert(es.to_set().contains(x));
        let k = es.index_of(x);
        assert(eff.edges[k] == gone_edge(x));
        assert(edges[x] == (edges[x].0, edges[x].1));
    }
    assert forall|k: int| 0 <= k < eff.edges.len() implies takes_away(
        #[trigger] eff.edges[k],
        stmt.kind,
        system,
    ) && exists|i: int|
        0 <= i < rows.len() && (#[trigger] rows[i]).dom().contains(t) && rows[i][t]
            == eff.edges[k].iid by {
        assert(eff.edges[k] == gone_edge(es[k]));
        assert(es.to_set().contains(es[k]));
        assert(edges.dom().contains(es[k]));
    }
    assert forall|a: int, b: int| 0 <= a < b < eff.edges.len() implies (
    #[trigger] eff.edges[a]).iid.bits < (#[trigger] eff.edges[b]).iid.bits by {
        assert(<Iid as OrderedKey>::less(es[a], es[b]));
    }
}

} // verus!
