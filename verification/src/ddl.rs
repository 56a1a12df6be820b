//! Statements on the catalog of graphs and on the access policy.

use crate::ast::{
    GraphStmt, MutKind, PrivilegeAction, PrivilegeKind, PrivilegeSpec, RoleTarget, SecurityStmt,
};
use crate::bindings::BindingKind;
use crate::delete::{
    edges_gone, incident_edges_of, incident_of, law_attached_edges_are_those_listed,
    lemma_edges_gone, lemma_edges_keep_nodes, lemma_nodes_gone, lemma_nodes_keep_edges, listed_at,
    nodes_gone, record_edges_gone, record_nodes_gone, takes_away,
};
use crate::doc::{Doc, DocView};
use crate::effects::{CatalogOp, CatalogOpView, Effects, EffectsView};
use crate::error::{EngineError, ErrorView};
use crate::event::{Event, EventView, Op, OpView};
use crate::fold::{
    lemma_try_fold_all, lemma_try_fold_fails, lemma_try_fold_step, try_fold,
};
use crate::insert::{put_event, ValidRange};
use crate::names::{reserved_name, reserved_name_error, validate_user_graph_name};
use crate::security::{
    edge_only_doc, edge_only_doc_spec, grant_edge_id, grant_edge_id_spec, member_edge_id,
    member_edge_id_spec, privilege_node_doc, privilege_node_doc_spec, privilege_node_id,
    privilege_node_id_spec, role_node_doc, role_node_doc_spec, role_node_id, role_node_id_spec,
    user_node_doc, user_node_doc_spec, user_node_id, user_node_id_spec, GRANTED_EDGE,
    MEMBER_OF_EDGE, PRIVILEGE_LABEL, ROLE_LABEL, USER_LABEL, WILDCARD,
};
use crate::sorted::{
    lemma_sorted_exists, lemma_sorted_seq, sorted_seq, SortedMap, SortedSet,
};
use crate::state::{GraphsState, StateView, TableKind, DEFAULT_GRAPH};
use crate::text::{clone_texts, concat2, concat3, same_text, text_is, views};
use crate::types::{Iid, Instant, ValueView};
use crate::visible::{IncidentEdges, Visible};
use vstd::prelude::*;

verus! {

/// From now on, without end.
pub open spec fn from_now(system: Instant) -> ValidRange {
    ValidRange { system, valid_from: system, valid_to: Instant::end_of_time() }
}

/// The document of a graph's catalog node.
pub fn graph_catalog_doc(name: &str) -> (r: Doc)
    ensures
        r.wf(),
        r@ == edge_only_doc_spec(name@),
{
    edge_only_doc(name.to_owned())
}

/// What a catalog statement does: a graph is created under a free name that is
/// not reserved; any graph but the default one can be dropped. `iid` is the
/// identifier derived for the graph's catalog node.
pub open spec fn graph_stmt_spec(
    s: StateView,
    stmt: GraphStmt,
    iid: Result<Iid, String>,
    system: Instant,
) -> Result<EffectsView, ErrorView> {
    match stmt {
        GraphStmt::Create(name) => if reserved_name(name@) {
            Err(reserved_name_error(name@))
        } else if s.graphs.dom().contains(name@) {
            Err(ErrorView::GraphExists(name@))
        } else {
            match iid {
                Err(text) => Err(ErrorView::Type(text@)),
                Ok(iid) => Ok(
                    EffectsView::empty().push_node(
                        put_event(
                            iid,
                            None,
                            seq!["Graph"@],
                            edge_only_doc_spec(name@),
                            from_now(system),
                        ),
                    ).push_catalog(CatalogOpView::CreateGraph(name@)),
                ),
            }
        },
        GraphStmt::Drop(name) => if name@ == DEFAULT_GRAPH@ {
            Err(ErrorView::Unsupported("cannot drop default graph"@))
        } else if reserved_name(name@) {
            Err(reserved_name_error(name@))
        } else if !s.graphs.dom().contains(name@) {
            Err(ErrorView::UnknownGraph(name@))
        } else {
            match iid {
                Err(text) => Err(ErrorView::Type(text@)),
                Ok(iid) => Ok(
                    EffectsView::empty().push_node(
                        crate::delete::gone_event(iid, None, MutKind::Delete, system),
                    ).push_catalog(CatalogOpView::DropGraph(name@)),
                ),
            }
        },
    }
}

/// Resolves a catalog statement.
pub fn resolve_graph_stmt(
    state: &GraphsState,
    stmt: &GraphStmt,
    iid: Result<Iid, String>,
    system: Instant,
) -> (r: Result<Effects, EngineError>)
    requires
        state.wf(),
    ensures
        match r {
            Ok(eff) => eff.wf() && graph_stmt_spec(state@, *stmt, iid, system) == Ok::<
                EffectsView,
                ErrorView,
            >(eff@),
            Err(e) => graph_stmt_spec(state@, *stmt, iid, system) == Err::<
                EffectsView,
                ErrorView,
            >(e@),
        },
{
    let mut effects = Effects::new();
    match stmt {
        GraphStmt::Create(name) => {
            match validate_user_graph_name(name.as_str()) {
                Ok(()) => {},
                Err(e) => {
                    return Err(e);
                },
            }
            if state.has_graph(name.as_str()) {
                return Err(EngineError::GraphExists(name.clone()));
            }
            let iid = match iid {
                Ok(iid) => iid,
                Err(text) => {
                    return Err(EngineError::Type(text));
                },
            };
            effects.push_node(
                make_put(iid, None, "Graph", graph_catalog_doc(name.as_str()), system),
            );
            effects.push_catalog(CatalogOp::CreateGraph(name.clone()));
        },
        GraphStmt::Drop(name) => {
            if text_is(name, DEFAULT_GRAPH) {
                return Err(EngineError::Unsupported("cannot drop default graph".to_owned()));
            }
            match validate_user_graph_name(name.as_str()) {
                Ok(()) => {},
                Err(e) => {
                    return Err(e);
                },
            }
            if !state.has_graph(name.as_str()) {
                return Err(EngineError::UnknownGraph(name.clone()));
            }
            let iid = match iid {
                Ok(iid) => iid,
                Err(text) => {
                    return Err(EngineError::Type(text));
                },
            };
            effects.push_node(
                Event {
                    iid,
                    system_from: system,
                    valid_from: system,
                    valid_to: Instant::end_of_time(),
                    src: None,
                    dst: None,
                    op: Op::Delete,
                },
            );
            effects.push_catalog(CatalogOp::DropGraph(name.clone()));
        },
    }
    Ok(effects)
}

fn make_put(iid: Iid, ends: Option<(Iid, Iid)>, label: &str, doc: Doc, system: Instant) -> (r:
    Event)
    requires
        doc.wf(),
    ensures
        r.wf(),
        r@ == put_event(iid, ends, seq![label@], doc@, from_now(system)),
{
    let mut labels: Vec<String> = Vec::new();
    labels.push(label.to_owned());
    assert(views(labels@) =~= seq![label@]);
    let (src, dst) = match ends {
        Some((s, d)) => (Some(s), Some(d)),
        None => (None, None),
    };
    Event {
        iid,
        system_from: system,
        valid_from: system,
        valid_to: Instant::end_of_time(),
        src,
        dst,
        op: Op::Put { labels, doc },
    }
}

/// The identifiers derived for the policy's nodes and edges, by their `_id`.
pub struct PolicyIds {
    pub nodes: SortedMap<String, Iid>,
    pub edges: SortedMap<String, Iid>,
}

impl PolicyIds {
    pub open spec fn wf(&self) -> bool {
        self.nodes.wf() && self.edges.wf()
    }

    /// The identifier of an element of the policy graph.
    pub open spec fn id_of(&self, table: TableKind, id: Seq<char>) -> Result<Iid, ErrorView> {
        let map = match table {
            TableKind::Nodes => self.nodes@,
            TableKind::Edges => self.edges@,
        };
        if map.dom().contains(id) {
            Ok(map[id])
        } else {
            Err(ErrorView::Type("no identifier for "@ + id))
        }
    }

    pub fn new() -> (r: PolicyIds)
        ensures
            r.wf(),
            r.nodes@ == Map::<Seq<char>, Iid>::empty(),
            r.edges@ == Map::<Seq<char>, Iid>::empty(),
    {
        PolicyIds { nodes: SortedMap::new(), edges: SortedMap::new() }
    }

    /// The identifier of an element of the policy graph; one that was not
    /// derived fails.
    pub fn security_iid(&self, table: TableKind, id: &String) -> (r: Result<Iid, EngineError>)
        requires
            self.wf(),
        ensures
            match r {
                Ok(iid) => self.id_of(table, id@) == Ok::<Iid, ErrorView>(iid),
                Err(e) => self.id_of(table, id@) == Err::<Iid, ErrorView>(e@),
            },
    {
        let found = match table {
            TableKind::Nodes => self.nodes.get(id),
            TableKind::Edges => self.edges.get(id),
        };
        match found {
            Some(iid) => Ok(*iid),
            None => Err(EngineError::Type(concat2("no identifier for ", id.as_str()))),
        }
    }
}

/// A node of the policy graph is put.
pub open spec fn security_node_put(
    eff: EffectsView,
    iid: Iid,
    label: Seq<char>,
    doc: DocView,
    system: Instant,
) -> EffectsView {
    eff.node_created(seq![label], doc).push_node(
        put_event(iid, None, seq![label], doc, from_now(system)),
    )
}

/// An edge of the policy graph is put.
pub open spec fn security_edge_put(
    eff: EffectsView,
    iid: Iid,
    label: Seq<char>,
    doc: DocView,
    ends: (Iid, Iid),
    system: Instant,
) -> EffectsView {
    eff.edge_created(doc).push_edge(
        put_event(iid, Some(ends), seq![label], doc, from_now(system)),
    )
}

fn put_security_node(effects: &mut Effects, iid: Iid, label: &str, doc: Doc, system: Instant)
    requires
        old(effects).wf(),
        doc.wf(),
    ensures
        final(effects).wf(),
        final(effects)@ == security_node_put(old(effects)@, iid, label@, doc@, system),
{
    let mut labels: Vec<String> = Vec::new();
    labels.push(label.to_owned());
    assert(views(labels@) =~= seq![label@]);
    effects.record_node_create(&labels, &doc);
    effects.push_node(make_put(iid, None, label, doc, system));
}

fn put_security_edge(
    effects: &mut Effects,
    iid: Iid,
    label: &str,
    doc: Doc,
    src: Iid,
    dst: Iid,
    system: Instant,
)
    requires
        old(effects).wf(),
        doc.wf(),
    ensures
        final(effects).wf(),
        final(effects)@ == security_edge_put(
            old(effects)@,
            iid,
            label@,
            doc@,
            (src, dst),
            system,
        ),
{
    effects.record_edge_create(&doc);
    effects.push_edge(make_put(iid, Some((src, dst)), label, doc, system));
}

/// The edge `id` of the policy graph is put where it is not visible.
pub open spec fn edge_ensured(
    eff: EffectsView,
    ids: PolicyIds,
    visible: Visible,
    id: Seq<char>,
    label: Seq<char>,
    ends: (Iid, Iid),
    system: Instant,
) -> Result<EffectsView, ErrorView> {
    match ids.id_of(TableKind::Edges, id) {
        Err(e) => Err(e),
        Ok(iid) => if visible.lookup(BindingKind::Edge, iid) is None {
            Ok(security_edge_put(eff, iid, label, edge_only_doc_spec(id), ends, system))
        } else {
            Ok(eff)
        },
    }
}

fn ensure_edge(
    effects: &mut Effects,
    ids: &PolicyIds,
    visible: &Visible,
    id: String,
    label: &str,
    src: Iid,
    dst: Iid,
    system: Instant,
) -> (r: Result<(), EngineError>)
    requires
        old(effects).wf(),
        ids.wf(),
        visible.wf(),
    ensures
        ({
            let want = edge_ensured(
                old(effects)@,
                *ids,
                *visible,
                id@,
                label@,
                (src, dst),
                system,
            );
            match r {
                Ok(()) => final(effects).wf() && want == Ok::<EffectsView, ErrorView>(
                    final(effects)@,
                ),
                Err(e) => want == Err::<EffectsView, ErrorView>(e@),
            }
        }),
{
    let iid = match ids.security_iid(TableKind::Edges, &id) {
        Ok(iid) => iid,
        Err(e) => {
            return Err(e);
        },
    };
    if visible.get(BindingKind::Edge, iid).is_none() {
        put_security_edge(effects, iid, label, edge_only_doc(id), src, dst, system);
    }
    Ok(())
}

/// The edge `id` of the policy graph goes where it is visible.
pub open spec fn edge_dropped(
    eff: EffectsView,
    ids: PolicyIds,
    visible: Visible,
    id: Seq<char>,
    ends: (Iid, Iid),
    system: Instant,
) -> Result<EffectsView, ErrorView> {
    match ids.id_of(TableKind::Edges, id) {
        Err(e) => Err(e),
        Ok(iid) => match visible.lookup(BindingKind::Edge, iid) {
            Some(p) => Ok(
                eff.edge_deleted(p.doc).push_edge(
                    crate::delete::gone_event(iid, Some(ends), MutKind::Delete, system),
                ),
            ),
            None => Ok(eff),
        },
    }
}

fn drop_edge(
    effects: &mut Effects,
    ids: &PolicyIds,
    visible: &Visible,
    id: &String,
    src: Iid,
    dst: Iid,
    system: Instant,
) -> (r: Result<(), EngineError>)
    requires
        old(effects).wf(),
        ids.wf(),
        visible.wf(),
    ensures
        ({
            let want = edge_dropped(old(effects)@, *ids, *visible, id@, (src, dst), system);
            match r {
                Ok(()) => final(effects).wf() && want == Ok::<EffectsView, ErrorView>(
                    final(effects)@,
                ),
                Err(e) => want == Err::<EffectsView, ErrorView>(e@),
            }
        }),
{
    let iid = match ids.security_iid(TableKind::Edges, id) {
        Ok(iid) => iid,
        Err(e) => {
            return Err(e);
        },
    };
    match visible.get(BindingKind::Edge, iid) {
        Some(p) => {
            effects.record_edge_delete(&p.doc);
            effects.push_edge(
                Event {
                    iid,
                    system_from: system,
                    valid_from: system,
                    valid_to: Instant::end_of_time(),
                    src: Some(src),
                    dst: Some(dst),
                    op: Op::Delete,
                },
            );
        },
        None => {},
    }
    Ok(())
}

/// The node `id` of the policy graph, put where it is not visible.
pub open spec fn node_ensured(
    eff: EffectsView,
    ids: PolicyIds,
    visible: Visible,
    id: Seq<char>,
    label: Seq<char>,
    doc: DocView,
    system: Instant,
) -> Result<(EffectsView, Iid), ErrorView> {
    match ids.id_of(TableKind::Nodes, id) {
        Err(e) => Err(e),
        Ok(iid) => if visible.lookup(BindingKind::Node, iid) is None {
            Ok((security_node_put(eff, iid, label, doc, system), iid))
        } else {
            Ok((eff, iid))
        },
    }
}

fn ensure_node(
    effects: &mut Effects,
    ids: &PolicyIds,
    visible: &Visible,
    id: &String,
    label: &str,
    doc: Doc,
    system: Instant,
) -> (r: Result<Iid, EngineError>)
    requires
        old(effects).wf(),
        ids.wf(),
        visible.wf(),
        doc.wf(),
    ensures
        ({
            let want = node_ensured(old(effects)@, *ids, *visible, id@, label@, doc@, system);
            match r {
                Ok(iid) => final(effects).wf() && want == Ok::<(EffectsView, Iid), ErrorView>(
                    (final(effects)@, iid),
                ),
                Err(e) => want == Err::<(EffectsView, Iid), ErrorView>(e@),
            }
        }),
{
    let iid = match ids.security_iid(TableKind::Nodes, id) {
        Ok(iid) => iid,
        Err(e) => {
            return Err(e);
        },
    };
    if visible.get(BindingKind::Node, iid).is_none() {
        put_security_node(effects, iid, label, doc, system);
    }
    Ok(iid)
}

pub open spec fn unknown_role(name: Seq<char>) -> ErrorView {
    ErrorView::Security("unknown role '"@ + name + "'"@)
}

/// The identifier of a role that must be there.
pub open spec fn role_iid(ids: PolicyIds, visible: Visible, name: Seq<char>) -> Result<
    Iid,
    ErrorView,
> {
    match ids.id_of(TableKind::Nodes, role_node_id_spec(name)) {
        Err(e) => Err(e),
        Ok(iid) => if visible.lookup(BindingKind::Node, iid) is None {
            Err(unknown_role(name))
        } else {
            Ok(iid)
        },
    }
}

fn require_role(ids: &PolicyIds, visible: &Visible, name: &String) -> (r: Result<
    Iid,
    EngineError,
>)
    requires
        ids.wf(),
        visible.wf(),
    ensures
        match r {
            Ok(iid) => role_iid(*ids, *visible, name@) == Ok::<Iid, ErrorView>(iid),
            Err(e) => role_iid(*ids, *visible, name@) == Err::<Iid, ErrorView>(e@),
        },
{
    let iid = match ids.security_iid(TableKind::Nodes, &role_node_id(name.as_str())) {
        Ok(iid) => iid,
        Err(e) => {
            return Err(e);
        },
    };
    if visible.get(BindingKind::Node, iid).is_none() {
        return Err(EngineError::Security(concat3("unknown role '", name.as_str(), "'")));
    }
    Ok(iid)
}

/// One scope of a privilege.
#[derive(Debug)]
pub struct Scope {
    pub action: &'static str,
    pub graph: String,
    pub kind: &'static str,
    pub name: String,
}

#[verifier::ext_equal]
pub struct ScopeView {
    pub action: Seq<char>,
    pub graph: Seq<char>,
    pub kind: Seq<char>,
    pub name: Seq<char>,
}

impl View for Scope {
    type V = ScopeView;

    open spec fn view(&self) -> ScopeView {
        ScopeView {
            action: self.action@,
            graph: self.graph@,
            kind: self.kind@,
            name: self.name@,
        }
    }
}

pub open spec fn scope_actions(action: PrivilegeAction) -> Seq<Seq<char>> {
    match action {
        PrivilegeAction::Read => seq!["read"@],
        PrivilegeAction::Write => seq!["write"@],
        PrivilegeAction::All => seq!["read"@, "write"@],
    }
}

pub open spec fn scope_names(names: Option<Vec<String>>) -> Seq<Seq<char>> {
    match names {
        None => seq![WILDCARD@],
        Some(names) => views(names@),
    }
}

pub open spec fn scope_kind(kind: PrivilegeKind) -> Seq<char> {
    match kind {
        PrivilegeKind::Nodes => "nodes"@,
        PrivilegeKind::Edges => "edges"@,
    }
}

/// The scopes of one action.
pub open spec fn action_scopes(
    action: Seq<char>,
    graph: Seq<char>,
    kind: Seq<char>,
    names: Seq<Seq<char>>,
) -> Seq<ScopeView> {
    names.map_values(|name: Seq<char>| ScopeView { action, graph, kind, name })
}

/// The scopes of a privilege: each action on each name. The graph must not be
/// reserved; no graph and no names mean all.
pub open spec fn scopes_spec(p: PrivilegeSpec) -> Result<Seq<ScopeView>, ErrorView> {
    let kind = scope_kind(p.kind);
    let names = scope_names(p.names);
    if p.graph is Some && reserved_name(p.graph->0@) {
        Err(reserved_name_error(p.graph->0@))
    } else {
        let graph = match p.graph {
            None => WILDCARD@,
            Some(g) => g@,
        };
        let actions = scope_actions(p.action);
        Ok(
            if actions.len() == 1 {
                action_scopes(actions[0], graph, kind, names)
            } else {
                action_scopes(actions[0], graph, kind, names) + action_scopes(
                    actions[1],
                    graph,
                    kind,
                    names,
                )
            },
        )
    }
}

fn push_scopes(
    scopes: &mut Vec<Scope>,
    action: &'static str,
    graph: &String,
    kind: &'static str,
    names: &Vec<String>,
)
    ensures
        views(final(scopes)@) == views(old(scopes)@) + action_scopes(
            action@,
            graph@,
            kind@,
            views(names@),
        ),
{
    let ghost start = views(scopes@);
    let ghost all = action_scopes(action@, graph@, kind@, views(names@));
    let mut i: usize = 0;
    assert(start + all.subrange(0, 0) =~= start);
    while i < names.len()
        invariant
            i <= names.len(),
            all == action_scopes(action@, graph@, kind@, views(names@)),
            views(scopes@) == start + all.subrange(0, i as int),
        decreases names.len() - i,
    {
        let scope = Scope { action, graph: graph.clone(), kind, name: names[i].clone() };
        proof {
            crate::text::lemma_views_push(scopes@, scope);
            assert(all.subrange(0, i + 1) =~= all.subrange(0, i as int).push(all[i as int]));
            assert(all[i as int] =~= scope@);
        }
        scopes.push(scope);
        assert(views(scopes@) =~= start + all.subrange(0, i + 1));
        i += 1;
    }
    assert(all.subrange(0, i as int) =~= all);
}

/// The scopes of a privilege.
pub fn privilege_scopes(privilege: &PrivilegeSpec) -> (r: Result<Vec<Scope>, EngineError>)
    ensures
        match r {
            Ok(scopes) => scopes_spec(*privilege) == Ok::<Seq<ScopeView>, ErrorView>(
                views(scopes@),
            ),
            Err(e) => scopes_spec(*privilege) == Err::<Seq<ScopeView>, ErrorView>(e@),
        },
{
    let graph = match &privilege.graph {
        None => WILDCARD.to_owned(),
        Some(graph) => {
            match validate_user_graph_name(graph.as_str()) {
                Ok(()) => {},
                Err(e) => {
                    return Err(e);
                },
            }
            graph.clone()
        },
    };
    let kind = match privilege.kind {
        PrivilegeKind::Nodes => "nodes",
        PrivilegeKind::Edges => "edges",
    };
    let names: Vec<String> = match &privilege.names {
        None => {
            let mut v: Vec<String> = Vec::new();
            v.push(WILDCARD.to_owned());
            assert(views(v@) =~= seq![WILDCARD@]);
            v
        },
        Some(names) => clone_texts(names),
    };
    let mut scopes: Vec<Scope> = Vec::new();
    assert(views(scopes@) =~= Seq::empty());
    match privilege.action {
        PrivilegeAction::Read => {
            push_scopes(&mut scopes, "read", &graph, kind, &names);
        },
        PrivilegeAction::Write => {
            push_scopes(&mut scopes, "write", &graph, kind, &names);
        },
        PrivilegeAction::All => {
            push_scopes(&mut scopes, "read", &graph, kind, &names);
            push_scopes(&mut scopes, "write", &graph, kind, &names);
        },
    }
    proof {
        let want = scopes_spec(*privilege)->Ok_0;
        assert(views(scopes@) =~= want);
    }
    Ok(scopes)
}

/// One scope of a privilege is granted to a role.
pub open spec fn scope_granted(
    eff: EffectsView,
    s: ScopeView,
    role: Seq<char>,
    role_iid: Iid,
    ids: PolicyIds,
    visible: Visible,
    system: Instant,
) -> Result<EffectsView, ErrorView> {
    let id = privilege_node_id_spec(s.action, s.graph, s.kind, s.name);
    match node_ensured(
        eff,
        ids,
        visible,
        id,
        PRIVILEGE_LABEL@,
        privilege_node_doc_spec(s.action, s.graph, s.kind, s.name),
        system,
    ) {
        Err(e) => Err(e),
        Ok((eff, priv_iid)) => edge_ensured(
            eff,
            ids,
            visible,
            grant_edge_id_spec(role_node_id_spec(role), id),
            GRANTED_EDGE@,
            (role_iid, priv_iid),
            system,
        ),
    }
}

/// One scope of a privilege is taken from a role.
pub open spec fn scope_revoked(
    eff: EffectsView,
    s: ScopeView,
    role: Seq<char>,
    role_iid: Iid,
    ids: PolicyIds,
    visible: Visible,
    system: Instant,
) -> Result<EffectsView, ErrorView> {
    let id = privilege_node_id_spec(s.action, s.graph, s.kind, s.name);
    match ids.id_of(TableKind::Nodes, id) {
        Err(e) => Err(e),
        Ok(priv_iid) => edge_dropped(
            eff,
            ids,
            visible,
            grant_edge_id_spec(role_node_id_spec(role), id),
            (role_iid, priv_iid),
            system,
        ),
    }
}

fn grant_scope(
    effects: &mut Effects,
    action: &str,
    graph: &str,
    kind: &str,
    name: &str,
    role: &String,
    role_iid: Iid,
    ids: &PolicyIds,
    visible: &Visible,
    system: Instant,
) -> (r: Result<(), EngineError>)
    requires
        old(effects).wf(),
        ids.wf(),
        visible.wf(),
    ensures
        ({
            let s = ScopeView { action: action@, graph: graph@, kind: kind@, name: name@ };
            let want = scope_granted(
                old(effects)@,
                s,
                role@,
                role_iid,
                *ids,
                *visible,
                system,
            );
            match r {
                Ok(()) => final(effects).wf() && want == Ok::<EffectsView, ErrorView>(
                    final(effects)@,
                ),
                Err(e) => want == Err::<EffectsView, ErrorView>(e@),
            }
        }),
{
    let id = privilege_node_id(action, graph, kind, name);
    let priv_iid = match ensure_node(
        effects,
        ids,
        visible,
        &id,
        PRIVILEGE_LABEL,
        privilege_node_doc(action, graph, kind, name),
        system,
    ) {
        Ok(iid) => iid,
        Err(e) => {
            return Err(e);
        },
    };
    let edge = grant_edge_id(role_node_id(role.as_str()).as_str(), id.as_str());
    ensure_edge(effects, ids, visible, edge, GRANTED_EDGE, role_iid, priv_iid, system)
}

fn revoke_scope(
    effects: &mut Effects,
    action: &str,
    graph: &str,
    kind: &str,
    name: &str,
    role: &String,
    role_iid: Iid,
    ids: &PolicyIds,
    visible: &Visible,
    system: Instant,
) -> (r: Result<(), EngineError>)
    requires
        old(effects).wf(),
        ids.wf(),
        visible.wf(),
    ensures
        ({
            let s = ScopeView { action: action@, graph: graph@, kind: kind@, name: name@ };
            let want = scope_revoked(
                old(effects)@,
                s,
                role@,
                role_iid,
                *ids,
                *visible,
                system,
            );
            match r {
                Ok(()) => final(effects).wf() && want == Ok::<EffectsView, ErrorView>(
                    final(effects)@,
                ),
                Err(e) => want == Err::<EffectsView, ErrorView>(e@),
            }
        }),
{
    let id = privilege_node_id(action, graph, kind, name);
    let priv_iid = match ids.security_iid(TableKind::Nodes, &id) {
        Ok(iid) => iid,
        Err(e) => {
            return Err(e);
        },
    };
    let edge = grant_edge_id(role_node_id(role.as_str()).as_str(), id.as_str());
    drop_edge(effects, ids, visible, &edge, role_iid, priv_iid, system)
}

/// The administrator's privilege.
pub open spec fn admin_scope() -> ScopeView {
    ScopeView { action: "admin"@, graph: WILDCARD@, kind: WILDCARD@, name: WILDCARD@ }
}

/// What a statement on the access policy does. A role must be there before it
/// is dropped, granted or given anything, and must not be before it is
/// created. What is there already is not put again, and what is not there is
/// not taken away. A dropped role takes all that is attached to it along.
pub open spec fn security_stmt_spec(
    stmt: SecurityStmt,
    ids: PolicyIds,
    visible: Visible,
    incident: IncidentEdges,
    system: Instant,
) -> Result<EffectsView, ErrorView> {
    let none = EffectsView::empty();
    match stmt {
        SecurityStmt::CreateRole(name) => match ids.id_of(
            TableKind::Nodes,
            role_node_id_spec(name@),
        ) {
            Err(e) => Err(e),
            Ok(iid) => if visible.lookup(BindingKind::Node, iid) is Some {
                Err(ErrorView::Security("role '"@ + name@ + "' already exists"@))
            } else {
                Ok(
                    security_node_put(
                        none,
                        iid,
                        ROLE_LABEL@,
                        role_node_doc_spec(name@),
                        system,
                    ),
                )
            },
        },
        SecurityStmt::DropRole(name) => match role_iid(ids, visible, name@) {
            Err(e) => Err(e),
            Ok(iid) => {
                let nodes = Set::<Iid>::empty().insert(iid);
                Ok(
                    nodes_gone(
                        edges_gone(
                            incident_edges_of(nodes, incident),
                            visible,
                            MutKind::Delete,
                            system,
                        ),
                        nodes,
                        visible,
                        MutKind::Delete,
                        system,
                    ),
                )
            },
        },
        SecurityStmt::GrantRole { role, to } => match role_iid(ids, visible, role@) {
            Err(e) => Err(e),
            Ok(role_iid) => {
                let from = match to {
                    RoleTarget::User(subject) => match node_ensured(
                        none,
                        ids,
                        visible,
                        user_node_id_spec(subject@),
                        USER_LABEL@,
                        user_node_doc_spec(subject@),
                        system,
                    ) {
                        Err(e) => Err(e),
                        Ok((eff, iid)) => Ok((eff, user_node_id_spec(subject@), iid)),
                    },
                    RoleTarget::Role(member) => if member@ == role@ {
                        Err(
                            ErrorView::Security(
                                "cannot grant role '"@ + role@ + "' to itself"@,
                            ),
                        )
                    } else {
                        match self::role_iid(ids, visible, member@) {
                            Err(e) => Err(e),
                            Ok(iid) => Ok((none, role_node_id_spec(member@), iid)),
                        }
                    },
                };
                match from {
                    Err(e) => Err(e),
                    Ok((eff, id, iid)) => edge_ensured(
                        eff,
                        ids,
                        visible,
                        member_edge_id_spec(id, role_node_id_spec(role@)),
                        MEMBER_OF_EDGE@,
                        (iid, role_iid),
                        system,
                    ),
                }
            },
        },
        SecurityStmt::RevokeRole { role, from } => match role_iid(ids, visible, role@) {
            Err(e) => Err(e),
            Ok(role_iid) => {
                let id = match from {
                    RoleTarget::User(subject) => user_node_id_spec(subject@),
                    RoleTarget::Role(member) => role_node_id_spec(member@),
                };
                match ids.id_of(TableKind::Nodes, id) {
                    Err(e) => Err(e),
                    Ok(iid) => edge_dropped(
                        none,
                        ids,
                        visible,
                        member_edge_id_spec(id, role_node_id_spec(role@)),
                        (iid, role_iid),
                        system,
                    ),
                }
            },
        },
        SecurityStmt::GrantPrivilege { privilege, role } => match role_iid(ids, visible, role@) {
            Err(e) => Err(e),
            Ok(role_iid) => match scopes_spec(privilege) {
                Err(e) => Err(e),
                Ok(scopes) => try_fold(
                    scopes,
                    none,
                    |eff: EffectsView, s: ScopeView|
                        scope_granted(eff, s, role@, role_iid, ids, visible, system),
                ),
            },
        },
        SecurityStmt::RevokePrivilege { privilege, role } => match role_iid(ids, visible, role@) {
            Err(e) => Err(e),
            Ok(role_iid) => match scopes_spec(privilege) {
                Err(e) => Err(e),
                Ok(scopes) => try_fold(
                    scopes,
                    none,
                    |eff: EffectsView, s: ScopeView|
                        scope_revoked(eff, s, role@, role_iid, ids, visible, system),
                ),
            },
        },
        SecurityStmt::GrantAdmin { role } => match role_iid(ids, visible, role@) {
            Err(e) => Err(e),
            Ok(role_iid) => scope_granted(
                none,
                admin_scope(),
                role@,
                role_iid,
                ids,
                visible,
                system,
            ),
        },
        SecurityStmt::RevokeAdmin { role } => match role_iid(ids, visible, role@) {
            Err(e) => Err(e),
            Ok(role_iid) => scope_revoked(
                none,
                admin_scope(),
                role@,
                role_iid,
                ids,
                visible,
                system,
            ),
        },
        SecurityStmt::ShowRoles => Err(ErrorView::NotAMutation),
        SecurityStmt::ShowGrants => Err(ErrorView::NotAMutation),
    }
}

fn grant_privilege(
    privilege: &PrivilegeSpec,
    role: &String,
    role_iid: Iid,
    ids: &PolicyIds,
    visible: &Visible,
    system: Instant,
) -> (r: Result<Effects, EngineError>)
    requires
        ids.wf(),
        visible.wf(),
    ensures
        ({
            let want = match scopes_spec(*privilege) {
                Err(e) => Err(e),
                Ok(scopes) => try_fold(
                    scopes,
                    EffectsView::empty(),
                    |eff: EffectsView, s: ScopeView|
                        scope_granted(eff, s, role@, role_iid, *ids, *visible, system),
                ),
            };
            match r {
                Ok(eff) => eff.wf() && want == Ok::<EffectsView, ErrorView>(eff@),
                Err(e) => want == Err::<EffectsView, ErrorView>(e@),
            }
        }),
{
    let scopes = match privilege_scopes(privilege) {
        Ok(s) => s,
        Err(e) => {
            return Err(e);
        },
    };
    let ghost all = views(scopes@);
    let ghost none = EffectsView::empty();
    let ghost step = |eff: EffectsView, s: ScopeView|
        scope_granted(eff, s, role@, role_iid, *ids, *visible, system);
    let mut effects = Effects::new();
    let mut i: usize = 0;
    proof {
        lemma_try_fold_all(all, none, step);
    }
    while i < scopes.len()
        invariant
            i <= scopes.len(),
            ids.wf(),
            visible.wf(),
            effects.wf(),
            all == views(scopes@),
            scopes_spec(*privilege) == Ok::<Seq<ScopeView>, ErrorView>(all),
            none == EffectsView::empty(),
            step == (|eff: EffectsView, s: ScopeView|
                scope_granted(eff, s, role@, role_iid, *ids, *visible, system)),
            try_fold(all.subrange(0, i as int), none, step) == Ok::<EffectsView, ErrorView>(
                effects@,
            ),
        decreases scopes.len() - i,
    {
        proof {
            lemma_try_fold_step(all, none, step, i as int);
            if try_fold(all.subrange(0, i + 1), none, step) is Err {
                lemma_try_fold_fails(all, none, step, i + 1);
            }
            assert(all[i as int] == scopes@[i as int]@);
        }
        let s = &scopes[i];
        match grant_scope(
            &mut effects,
            s.action,
            s.graph.as_str(),
            s.kind,
            s.name.as_str(),
            role,
            role_iid,
            ids,
            visible,
            system,
        ) {
            Ok(()) => {},
            Err(e) => {
                return Err(e);
            },
        }
        i += 1;
    }
    proof {
        lemma_try_fold_all(all, none, step);
    }
    Ok(effects)
}

fn revoke_privilege(
    privilege: &PrivilegeSpec,
    role: &String,
    role_iid: Iid,
    ids: &PolicyIds,
    visible: &Visible,
    system: Instant,
) -> (r: Result<Effects, EngineError>)
    requires
        ids.wf(),
        visible.wf(),
    ensures
        ({
            let want = match scopes_spec(*privilege) {
                Err(e) => Err(e),
                Ok(scopes) => try_fold(
                    scopes,
                    EffectsView::empty(),
                    |eff: EffectsView, s: ScopeView|
                        scope_revoked(eff, s, role@, role_iid, *ids, *visible, system),
                ),
            };
            match r {
                Ok(eff) => eff.wf() && want == Ok::<EffectsView, ErrorView>(eff@),
                Err(e) => want == Err::<EffectsView, ErrorView>(e@),
            }
        }),
{
    let scopes = match privilege_scopes(privilege) {
        Ok(s) => s,
        Err(e) => {
            return Err(e);
        },
    };
    let ghost all = views(scopes@);
    let ghost none = EffectsView::empty();
    let ghost step = |eff: EffectsView, s: ScopeView|
        scope_revoked(eff, s, role@, role_iid, *ids, *visible, system);
    let mut effects = Effects::new();
    let mut i: usize = 0;
    proof {
        lemma_try_fold_all(all, none, step);
    }
    while i < scopes.len()
        invariant
            i <= scopes.len(),
            ids.wf(),
            visible.wf(),
            effects.wf(),
            all == views(scopes@),
            scopes_spec(*privilege) == Ok::<Seq<ScopeView>, ErrorView>(all),
            none == EffectsView::empty(),
            step == (|eff: EffectsView, s: ScopeView|
                scope_revoked(eff, s, role@, role_iid, *ids, *visible, system)),
            try_fold(all.subrange(0, i as int), none, step) == Ok::<EffectsView, ErrorView>(
                effects@,
            ),
        decreases scopes.len() - i,
    {
        proof {
            lemma_try_fold_step(all, none, step, i as int);
            if try_fold(all.subrange(0, i + 1), none, step) is Err {
                lemma_try_fold_fails(all, none, step, i + 1);
            }
            assert(all[i as int] == scopes@[i as int]@);
        }
        let s = &scopes[i];
        match revoke_scope(
            &mut effects,
            s.action,
            s.graph.as_str(),
            s.kind,
            s.name.as_str(),
            role,
            role_iid,
            ids,
            visible,
            system,
        ) {
            Ok(()) => {},
            Err(e) => {
                return Err(e);
            },
        }
        i += 1;
    }
    proof {
        lemma_try_fold_all(all, none, step);
    }
    Ok(effects)
}

fn drop_role(iid: Iid, visible: &Visible, incident: &IncidentEdges, system: Instant) -> (r: Effects)
    requires
        visible.wf(),
        incident.wf(),
    ensures
        r.wf(),
        ({
            let nodes = Set::<Iid>::empty().insert(iid);
            r@ == nodes_gone(
                edges_gone(
                    incident_edges_of(nodes, *incident),
                    *visible,
                    MutKind::Delete,
                    system,
                ),
                nodes,
                *visible,
                MutKind::Delete,
                system,
            )
        }),
{
    let mut nodes: SortedSet<Iid> = SortedSet::new();
    nodes.insert(iid);
    let attached = incident_of(&nodes, incident);
    let mut effects = record_edges_gone(&attached, visible, MutKind::Delete, system);
    record_nodes_gone(&mut effects, &nodes, visible, MutKind::Delete, system);
    effects
}

fn grant_role(
    role: &String,
    to: &RoleTarget,
    role_iid: Iid,
    ids: &PolicyIds,
    visible: &Visible,
    system: Instant,
) -> (r: Result<Effects, EngineError>)
    requires
        ids.wf(),
        visible.wf(),
        self::role_iid(*ids, *visible, role@) == Ok::<Iid, ErrorView>(role_iid),
    ensures
        ({
            let stmt = SecurityStmt::GrantRole { role: *role, to: *to };
            forall|incident: IncidentEdges|
                match r {
                    Ok(eff) => eff.wf() && #[trigger] security_stmt_spec(
                        stmt,
                        *ids,
                        *visible,
                        incident,
                        system,
                    ) == Ok::<EffectsView, ErrorView>(eff@),
                    Err(e) => security_stmt_spec(stmt, *ids, *visible, incident, system) == Err::<
                        EffectsView,
                        ErrorView,
                    >(e@),
                }
        }),
{
    let mut effects = Effects::new();
    let (from_id, from_iid) = match to {
        RoleTarget::User(subject) => {
            let id = user_node_id(subject.as_str());
            match ensure_node(
                &mut effects,
                ids,
                visible,
                &id,
                USER_LABEL,
                user_node_doc(subject.as_str()),
                system,
            ) {
                Ok(iid) => (id, iid),
                Err(e) => {
                    return Err(e);
                },
            }
        },
        RoleTarget::Role(member) => {
            if same_text(member, role) {
                return Err(
                    EngineError::Security(
                        concat3("cannot grant role '", role.as_str(), "' to itself"),
                    ),
                );
            }
            match require_role(ids, visible, member) {
                Ok(iid) => (role_node_id(member.as_str()), iid),
                Err(e) => {
                    return Err(e);
                },
            }
        },
    };
    let edge = member_edge_id(from_id.as_str(), role_node_id(role.as_str()).as_str());
    match ensure_edge(
        &mut effects,
        ids,
        visible,
        edge,
        MEMBER_OF_EDGE,
        from_iid,
        role_iid,
        system,
    ) {
        Ok(()) => Ok(effects),
        Err(e) => Err(e),
    }
}

/// Resolves a statement on the access policy. `ids` are the identifiers derived
/// for the policy elements that it names, `visible` their payloads, and
/// `incident` the edges at a role that is dropped.
pub fn resolve_security_stmt(
    stmt: &SecurityStmt,
    ids: &PolicyIds,
    visible: &Visible,
    incident: &IncidentEdges,
    system: Instant,
) -> (r: Result<Effects, EngineError>)
    requires
        ids.wf(),
        visible.wf(),
        incident.wf(),
    ensures
        match r {
            Ok(eff) => eff.wf() && security_stmt_spec(*stmt, *ids, *visible, *incident, system)
                == Ok::<EffectsView, ErrorView>(eff@),
            Err(e) => security_stmt_spec(*stmt, *ids, *visible, *incident, system) == Err::<
                EffectsView,
                ErrorView,
            >(e@),
        },
{
    match stmt {
        SecurityStmt::CreateRole(name) => {
            let iid = match ids.security_iid(TableKind::Nodes, &role_node_id(name.as_str())) {
                Ok(iid) => iid,
                Err(e) => {
                    return Err(e);
                },
            };
            if visible.get(BindingKind::Node, iid).is_some() {
                return Err(
                    EngineError::Security(concat3("role '", name.as_str(), "' already exists")),
                );
            }
            let mut effects = Effects::new();
            put_security_node(
                &mut effects,
                iid,
                ROLE_LABEL,
                role_node_doc(name.as_str()),
                system,
            );
            Ok(effects)
        },
        SecurityStmt::DropRole(name) => match require_role(ids, visible, name) {
            Err(e) => Err(e),
            Ok(iid) => Ok(drop_role(iid, visible, incident, system)),
        },
        SecurityStmt::GrantRole { role, to } => match require_role(ids, visible, role) {
            Err(e) => Err(e),
            Ok(role_iid) => grant_role(role, to, role_iid, ids, visible, system),
        },
        SecurityStmt::RevokeRole { role, from } => match require_role(ids, visible, role) {
            Err(e) => Err(e),
            Ok(role_iid) => {
                let from_id = match from {
                    RoleTarget::User(subject) => user_node_id(subject.as_str()),
                    RoleTarget::Role(member) => role_node_id(member.as_str()),
                };
                let from_iid = match ids.security_iid(TableKind::Nodes, &from_id) {
                    Ok(iid) => iid,
                    Err(e) => {
                        return Err(e);
                    },
                };
                let edge = member_edge_id(
                    from_id.as_str(),
                    role_node_id(role.as_str()).as_str(),
                );
                let mut effects = Effects::new();
                match drop_edge(
                    &mut effects,
                    ids,
                    visible,
                    &edge,
                    from_iid,
                    role_iid,
                    system,
                ) {
                    Ok(()) => Ok(effects),
                    Err(e) => Err(e),
                }
            },
        },
        SecurityStmt::GrantPrivilege { privilege, role } => match require_role(
            ids,
            visible,
            role,
        ) {
            Err(e) => Err(e),
            Ok(role_iid) => grant_privilege(privilege, role, role_iid, ids, visible, system),
        },
        SecurityStmt::RevokePrivilege { privilege, role } => match require_role(
            ids,
            visible,
            role,
        ) {
            Err(e) => Err(e),
            Ok(role_iid) => revoke_privilege(privilege, role, role_iid, ids, visible, system),
        },
        SecurityStmt::GrantAdmin { role } => match require_role(ids, visible, role) {
            Err(e) => Err(e),
            Ok(role_iid) => {
                let mut effects = Effects::new();
                match grant_scope(
                    &mut effects,
                    "admin",
                    WILDCARD,
                    WILDCARD,
                    WILDCARD,
                    role,
                    role_iid,
                    ids,
                    visible,
                    system,
                ) {
                    Ok(()) => Ok(effects),
                    Err(e) => Err(e),
                }
            },
        },
        SecurityStmt::RevokeAdmin { role } => match require_role(ids, visible, role) {
            Err(e) => Err(e),
            Ok(role_iid) => {
                let mut effects = Effects::new();
                match revoke_scope(
                    &mut effects,
                    "admin",
                    WILDCARD,
                    WILDCARD,
                    WILDCARD,
                    role,
                    role_iid,
                    ids,
                    visible,
                    system,
                ) {
                    Ok(()) => Ok(effects),
                    Err(e) => Err(e),
                }
            },
        },
        SecurityStmt::ShowRoles => Err(EngineError::NotAMutation),
        SecurityStmt::ShowGrants => Err(EngineError::NotAMutation),
    }
}

/// A statement that grants something.
pub open spec fn is_grant(stmt: SecurityStmt) -> bool {
    stmt is GrantRole || stmt is GrantPrivilege || stmt is GrantAdmin
}

/// Some event of a list puts this element.
pub open spec fn puts(events: Seq<EventView>, iid: Iid) -> bool {
    exists|i: int| 0 <= i < events.len() && (#[trigger] events[i]).iid == iid && events[i].op is Put
}

/// An element is visible, or the effects put it.
pub open spec fn shown(before: Visible, eff: EffectsView, kind: BindingKind, iid: Iid) -> bool {
    before.lookup(kind, iid) is Some || puts(
        match kind {
            BindingKind::Node => eff.nodes,
            BindingKind::Edge => eff.edges,
        },
        iid,
    )
}

/// What was visible before the effects is visible after, and so is what they
/// put.
pub open spec fn effects_shown(before: Visible, eff: EffectsView, after: Visible) -> bool {
    forall|kind: BindingKind, iid: Iid| #[trigger]
        shown(before, eff, kind, iid) ==> after.lookup(kind, iid) is Some
}

/// All that is shown with some effects is shown with more.
spec fn shows_more(before: Visible, a: EffectsView, b: EffectsView) -> bool {
    forall|kind: BindingKind, iid: Iid| #[trigger]
        shown(before, a, kind, iid) ==> shown(before, b, kind, iid)
}

proof fn lemma_puts_push(events: Seq<EventView>, e: EventView, iid: Iid)
    ensures
        puts(events, iid) ==> puts(events.push(e), iid),
        e.iid == iid && e.op is Put ==> puts(events.push(e), iid),
{
    if puts(events, iid) {
        let i = choose|i: int|
            0 <= i < events.len() && (#[trigger] events[i]).iid == iid && events[i].op is Put;
        assert(events.push(e)[i] == events[i]);
    }
    assert(events.push(e)[events.len() as int] == e);
}

proof fn lemma_node_ensured(
    eff: EffectsView,
    ids: PolicyIds,
    before: Visible,
    id: Seq<char>,
    label: Seq<char>,
    doc: DocView,
    system: Instant,
)
    ensures
        node_ensured(eff, ids, before, id, label, doc, system) matches Ok((out, iid))
            ==> ids.id_of(TableKind::Nodes, id) == Ok::<Iid, ErrorView>(iid) && shown(
            before,
            out,
            BindingKind::Node,
            iid,
        ) && shows_more(before, eff, out),
{
    if let Ok((out, iid)) = node_ensured(eff, ids, before, id, label, doc, system) {
        let e = put_event(iid, None, seq![label], doc, from_now(system));
        assert forall|kind: BindingKind, x: Iid| #[trigger] shown(before, eff, kind, x) implies shown(
            before,
            out,
            kind,
            x,
        ) by {
            lemma_puts_push(eff.nodes, e, x);
        }
        lemma_puts_push(eff.nodes, e, iid);
    }
}

proof fn lemma_edge_ensured(
    eff: EffectsView,
    ids: PolicyIds,
    before: Visible,
    id: Seq<char>,
    label: Seq<char>,
    ends: (Iid, Iid),
    system: Instant,
)
    ensures
        edge_ensured(eff, ids, before, id, label, ends, system) matches Ok(out) ==> (ids.id_of(
            TableKind::Edges,
            id,
        ) matches Ok(iid) && shown(before, out, BindingKind::Edge, iid)) && shows_more(
            before,
            eff,
            out,
        ),
{
    if let Ok(out) = edge_ensured(eff, ids, before, id, label, ends, system) {
        let iid = ids.id_of(TableKind::Edges, id)->Ok_0;
        let e = put_event(iid, Some(ends), seq![label], edge_only_doc_spec(id), from_now(system));
        assert forall|kind: BindingKind, x: Iid| #[trigger] shown(before, eff, kind, x) implies shown(
            before,
            out,
            kind,
            x,
        ) by {
            lemma_puts_push(eff.edges, e, x);
        }
        lemma_puts_push(eff.edges, e, iid);
    }
}

/// The privilege of a scope and the edge that grants it to a role are shown.
spec fn scope_shown(
    before: Visible,
    eff: EffectsView,
    s: ScopeView,
    role: Seq<char>,
    ids: PolicyIds,
) -> bool {
    let id = privilege_node_id_spec(s.action, s.graph, s.kind, s.name);
    &&& (ids.id_of(TableKind::Nodes, id) matches Ok(n) && shown(before, eff, BindingKind::Node, n))
    &&& (ids.id_of(
        TableKind::Edges,
        grant_edge_id_spec(role_node_id_spec(role), id),
    ) matches Ok(e) && shown(before, eff, BindingKind::Edge, e))
}

proof fn lemma_scope_granted(
    eff: EffectsView,
    s: ScopeView,
    role: Seq<char>,
    role_iid: Iid,
    ids: PolicyIds,
    before: Visible,
    system: Instant,
)
    ensures
        scope_granted(eff, s, role, role_iid, ids, before, system) matches Ok(out) ==> scope_shown(
            before,
            out,
            s,
            role,
            ids,
        ) && shows_more(before, eff, out),
{
    let id = privilege_node_id_spec(s.action, s.graph, s.kind, s.name);
    let doc = privilege_node_doc_spec(s.action, s.graph, s.kind, s.name);
    lemma_node_ensured(eff, ids, before, id, PRIVILEGE_LABEL@, doc, system);
    if let Ok((mid, priv_iid)) = node_ensured(
        eff,
        ids,
        before,
        id,
        PRIVILEGE_LABEL@,
        doc,
        system,
    ) {
        lemma_edge_ensured(
            mid,
            ids,
            before,
            grant_edge_id_spec(role_node_id_spec(role), id),
            GRANTED_EDGE@,
            (role_iid, priv_iid),
            system,
        );
    }
}

/// Granting what is shown adds nothing.
proof fn lemma_scope_again(
    s: ScopeView,
    role: Seq<char>,
    role_iid: Iid,
    ids: PolicyIds,
    before: Visible,
    eff: EffectsView,
    after: Visible,
    acc: EffectsView,
    system: Instant,
)
    requires
        scope_shown(before, eff, s, role, ids),
        effects_shown(before, eff, after),
    ensures
        scope_granted(acc, s, role, role_iid, ids, after, system) == Ok::<EffectsView, ErrorView>(
            acc,
        ),
{
    let id = privilege_node_id_spec(s.action, s.graph, s.kind, s.name);
    let n = ids.id_of(TableKind::Nodes, id)->Ok_0;
    let e = ids.id_of(TableKind::Edges, grant_edge_id_spec(role_node_id_spec(role), id))->Ok_0;
    assert(shown(before, eff, BindingKind::Node, n));
    assert(shown(before, eff, BindingKind::Edge, e));
}

proof fn lemma_scopes_granted(
    scopes: Seq<ScopeView>,
    role: Seq<char>,
    role_iid: Iid,
    ids: PolicyIds,
    before: Visible,
    system: Instant,
)
    ensures
        try_fold(
            scopes,
            EffectsView::empty(),
            |eff: EffectsView, s: ScopeView|
                scope_granted(eff, s, role, role_iid, ids, before, system),
        ) matches Ok(out) ==> forall|k: int|
            0 <= k < scopes.len() ==> scope_shown(before, out, #[trigger] scopes[k], role, ids),
    decreases scopes.len(),
{
    let step = |eff: EffectsView, s: ScopeView|
        scope_granted(eff, s, role, role_iid, ids, before, system);
    if scopes.len() > 0 {
        let front = scopes.drop_last();
        lemma_scopes_granted(front, role, role_iid, ids, before, system);
        if let Ok(out) = try_fold(scopes, EffectsView::empty(), step) {
            let mid = try_fold(front, EffectsView::empty(), step)->Ok_0;
            assert(try_fold(front, EffectsView::empty(), step) == Ok::<EffectsView, ErrorView>(
                mid,
            ));
            lemma_scope_granted(mid, scopes.last(), role, role_iid, ids, before, system);
            assert forall|k: int| 0 <= k < scopes.len() implies scope_shown(
                before,
                out,
                #[trigger] scopes[k],
                role,
                ids,
            ) by {
                if k < front.len() {
                    assert(front[k] == scopes[k]);
                    assert(scope_shown(before, mid, front[k], role, ids));
                }
            }
        }
    }
}

proof fn lemma_scopes_again(
    scopes: Seq<ScopeView>,
    role: Seq<char>,
    role_iid: Iid,
    ids: PolicyIds,
    before: Visible,
    eff: EffectsView,
    after: Visible,
    system: Instant,
)
    requires
        effects_shown(before, eff, after),
        forall|k: int|
            0 <= k < scopes.len() ==> scope_shown(before, eff, #[trigger] scopes[k], role, ids),
    ensures
        try_fold(
            scopes,
            EffectsView::empty(),
            |acc: EffectsView, s: ScopeView|
                scope_granted(acc, s, role, role_iid, ids, after, system),
        ) == Ok::<EffectsView, ErrorView>(EffectsView::empty()),
    decreases scopes.len(),
{
    if scopes.len() > 0 {
        let front = scopes.drop_last();
        assert forall|k: int| 0 <= k < front.len() implies scope_shown(
            before,
            eff,
            #[trigger] front[k],
            role,
            ids,
        ) by {
            assert(front[k] == scopes[k]);
        }
        lemma_scopes_again(front, role, role_iid, ids, before, eff, after, system);
        assert(scopes.last() == scopes[scopes.len() - 1]);
        lemma_scope_again(
            scopes.last(),
            role,
            role_iid,
            ids,
            before,
            eff,
            after,
            EffectsView::empty(),
            system,
        );
    }
}

/// A grant that is made again once its effects are visible adds nothing: no
/// node, no edge, and nothing to report.
pub proof fn law_grants_again_add_nothing(
    stmt: SecurityStmt,
    ids: PolicyIds,
    before: Visible,
    incident: IncidentEdges,
    system: Instant,
    eff: EffectsView,
    after: Visible,
    incident_after: IncidentEdges,
    system_after: Instant,
)
    requires
        is_grant(stmt),
        security_stmt_spec(stmt, ids, before, incident, system) == Ok::<EffectsView, ErrorView>(
            eff,
        ),
        effects_shown(before, eff, after),
    ensures
        security_stmt_spec(stmt, ids, after, incident_after, system_after) == Ok::<
            EffectsView,
            ErrorView,
        >(EffectsView::empty()),
{
    let none = EffectsView::empty();
    match stmt {
        SecurityStmt::GrantRole { role, to } => {
            let role_iid = role_iid(ids, before, role@)->Ok_0;
            assert(shown(before, eff, BindingKind::Node, role_iid));
            assert(self::role_iid(ids, after, role@) == Ok::<Iid, ErrorView>(role_iid));
            match to {
                RoleTarget::User(subject) => {
                    let id = user_node_id_spec(subject@);
                    let doc = user_node_doc_spec(subject@);
                    lemma_node_ensured(none, ids, before, id, USER_LABEL@, doc, system);
                    let (mid, iid) = node_ensured(
                        none,
                        ids,
                        before,
                        id,
                        USER_LABEL@,
                        doc,
                        system,
                    )->Ok_0;
                    let edge = member_edge_id_spec(id, role_node_id_spec(role@));
                    lemma_edge_ensured(
                        mid,
                        ids,
                        before,
                        edge,
                        MEMBER_OF_EDGE@,
                        (iid, role_iid),
                        system,
                    );
                    assert(shown(before, mid, BindingKind::Node, iid));
                    assert(shown(before, eff, BindingKind::Node, iid));
                    let e = ids.id_of(TableKind::Edges, edge)->Ok_0;
                    assert(shown(before, eff, BindingKind::Edge, e));
                },
                RoleTarget::Role(member) => {
                    let iid = self::role_iid(ids, before, member@)->Ok_0;
                    let edge = member_edge_id_spec(
                        role_node_id_spec(member@),
                        role_node_id_spec(role@),
                    );
                    lemma_edge_ensured(
                        none,
                        ids,
                        before,
                        edge,
                        MEMBER_OF_EDGE@,
                        (iid, role_iid),
                        system,
                    );
                    assert(shown(before, eff, BindingKind::Node, iid));
                    let e = ids.id_of(TableKind::Edges, edge)->Ok_0;
                    assert(shown(before, eff, BindingKind::Edge, e));
                },
            }
        },
        SecurityStmt::GrantPrivilege { privilege, role } => {
            let role_iid = role_iid(ids, before, role@)->Ok_0;
            assert(shown(before, eff, BindingKind::Node, role_iid));
            let scopes = scopes_spec(privilege)->Ok_0;
            lemma_scopes_granted(scopes, role@, role_iid, ids, before, system);
            lemma_scopes_again(
                scopes,
                role@,
                role_iid,
                ids,
                before,
                eff,
                after,
                system_after,
            );
        },
        SecurityStmt::GrantAdmin { role } => {
            let role_iid = role_iid(ids, before, role@)->Ok_0;
            assert(shown(before, eff, BindingKind::Node, role_iid));
            lemma_scope_granted(none, admin_scope(), role@, role_iid, ids, before, system);
            lemma_scope_again(
                admin_scope(),
                role@,
                role_iid,
                ids,
                before,
                eff,
                after,
                none,
                system_after,
            );
        },
        _ => {},
    }
}

/// A graph is created where its name is free for users and not taken: one node
/// is written for it in the catalog, from now on and without end, and the
/// catalog change says so.
pub proof fn law_created_graphs_are_cataloged(
    s: StateView,
    name: String,
    iid: Iid,
    system: Instant,
)
    ensures
        ({
            let r = graph_stmt_spec(s, GraphStmt::Create(name), Ok::<Iid, String>(iid), system);
            &&& (r is Ok <==> !reserved_name(name@) && !s.graphs.dom().contains(name@))
            &&& (r matches Ok(eff) ==> {
                &&& eff.nodes.len() == 1
                &&& eff.edges.len() == 0
                &&& eff.catalog_ops.len() == 1
                &&& eff.catalog_ops[0] == CatalogOpView::CreateGraph(name@)
                &&& eff.nodes[0].iid == iid
                &&& eff.nodes[0].system_from == system
                &&& eff.nodes[0].valid_from == system
                &&& eff.nodes[0].valid_to.us == i64::MAX
                &&& (eff.nodes[0].op matches OpView::Put { labels, doc } && labels == seq![
                    "Graph"@,
                ] && doc.dom().contains("_id"@) && doc["_id"@] == ValueView::Str(name@))
            })
        }),
{
}

/// A graph is dropped where it is there and neither the default one nor a
/// reserved one: its node in the catalog is deleted from now on, and the catalog
/// change says so.
pub proof fn law_dropped_graphs_leave_the_catalog(
    s: StateView,
    name: String,
    iid: Iid,
    system: Instant,
)
    ensures
        ({
            let r = graph_stmt_spec(s, GraphStmt::Drop(name), Ok::<Iid, String>(iid), system);
            &&& (r is Ok <==> name@ != "default"@ && !reserved_name(name@)
                && s.graphs.dom().contains(name@))
            &&& (r matches Ok(eff) ==> {
                &&& eff.nodes.len() == 1
                &&& eff.edges.len() == 0
                &&& eff.catalog_ops.len() == 1
                &&& eff.catalog_ops[0] == CatalogOpView::DropGraph(name@)
                &&& eff.nodes[0].iid == iid
                &&& takes_away(eff.nodes[0], MutKind::Delete, system)
            })
        }),
{
}

/// The event adds an edge of the label between the ends, from now on and
/// without end.
pub open spec fn links(
    e: EventView,
    iid: Iid,
    label: Seq<char>,
    src: Iid,
    dst: Iid,
    system: Instant,
) -> bool {
    &&& e.iid == iid
    &&& e.src == Some(src)
    &&& e.dst == Some(dst)
    &&& e.system_from == system
    &&& e.valid_from == system
    &&& e.valid_to.us == i64::MAX
    &&& (e.op matches OpView::Put { labels, doc } && labels == seq![label])
}

/// A role that is granted has the user or the role as a member: the membership
/// is there, or it is written, from the member to the role. A user who is not
/// there is written too. A role is not granted to itself, nor one that is not
/// there.
pub proof fn law_granted_roles_have_members(
    role: String,
    to: RoleTarget,
    ids: PolicyIds,
    visible: Visible,
    incident: IncidentEdges,
    system: Instant,
)
    requires
        security_stmt_spec(
            SecurityStmt::GrantRole { role, to },
            ids,
            visible,
            incident,
            system,
        ) is Ok,
    ensures
        ({
            let eff = security_stmt_spec(
                SecurityStmt::GrantRole { role, to },
                ids,
                visible,
                incident,
                system,
            )->Ok_0;
            let member = match to {
                RoleTarget::User(u) => "user:"@ + u@,
                RoleTarget::Role(r) => "role:"@ + r@,
            };
            let edge = "member:"@ + member + ">"@ + ("role:"@ + role@);
            &&& ids.nodes@.dom().contains("role:"@ + role@)
            &&& ids.nodes@.dom().contains(member)
            &&& ids.edges@.dom().contains(edge)
            &&& visible.nodes@.dom().contains(ids.nodes@["role:"@ + role@])
            &&& (visible.edges@.dom().contains(ids.edges@[edge]) || (eff.edges.len() == 1 && links(
                eff.edges[0],
                ids.edges@[edge],
                "MEMBER_OF"@,
                ids.nodes@[member],
                ids.nodes@["role:"@ + role@],
                system,
            )))
            &&& (visible.nodes@.dom().contains(ids.nodes@[member]) || (to is User
                && eff.nodes.len() == 1 && eff.nodes[0].iid == ids.nodes@[member] && (
            eff.nodes[0].op matches OpView::Put { labels, .. } && labels == seq!["User"@])))
            &&& (to matches RoleTarget::Role(r) ==> r@ != role@)
        }),
{
}

/// A role that is revoked loses the member: where the membership is there, it is
/// deleted from now on; nothing else changes.
pub proof fn law_revoked_roles_lose_members(
    role: String,
    from: RoleTarget,
    ids: PolicyIds,
    visible: Visible,
    incident: IncidentEdges,
    system: Instant,
)
    requires
        security_stmt_spec(
            SecurityStmt::RevokeRole { role, from },
            ids,
            visible,
            incident,
            system,
        ) is Ok,
    ensures
        ({
            let eff = security_stmt_spec(
                SecurityStmt::RevokeRole { role, from },
                ids,
                visible,
                incident,
                system,
            )->Ok_0;
            let member = match from {
                RoleTarget::User(u) => "user:"@ + u@,
                RoleTarget::Role(r) => "role:"@ + r@,
            };
            let edge = "member:"@ + member + ">"@ + ("role:"@ + role@);
            &&& ids.edges@.dom().contains(edge)
            &&& eff.nodes.len() == 0
            &&& if visible.edges@.dom().contains(ids.edges@[edge]) {
                eff.edges.len() == 1 && eff.edges[0].iid == ids.edges@[edge] && takes_away(
                    eff.edges[0],
                    MutKind::Delete,
                    system,
                ) && eff.edges[0].src == Some(ids.nodes@[member]) && eff.edges[0].dst == Some(
                    ids.nodes@["role:"@ + role@],
                )
            } else {
                eff.edges.len() == 0
            }
        }),
{
}

/// A privilege as written stands for one scope for each action that it means and
/// each name that it lists: reading, writing or both; in the graph that it
/// names or in all; on the names that it lists or on all.
pub proof fn law_privileges_mean_every_name_and_action(p: PrivilegeSpec, s: ScopeView)
    requires
        scopes_spec(p) is Ok,
    ensures
        scopes_spec(p)->Ok_0.contains(s) <==> {
            &&& ((s.action == "read"@ && (p.action is Read || p.action is All)) || (s.action
                == "write"@ && (p.action is Write || p.action is All)))
            &&& s.graph == (match p.graph {
                Some(g) => g@,
                None => "*"@,
            })
            &&& s.kind == (match p.kind {
                PrivilegeKind::Nodes => "nodes"@,
                PrivilegeKind::Edges => "edges"@,
            })
            &&& (match p.names {
                Some(names) => views(names@).contains(s.name),
                None => s.name == "*"@,
            })
        },
{
    let graph = match p.graph {
        Some(g) => g@,
        None => "*"@,
    };
    let kind = scope_kind(p.kind);
    let names = scope_names(p.names);
    let all = scopes_spec(p)->Ok_0;
    lemma_action_scopes("read"@, graph, kind, names, s);
    lemma_action_scopes("write"@, graph, kind, names, s);
    if p.names is None {
        assert(names.contains(s.name) <==> s.name == "*"@) by {
            assert(names[0] == "*"@);
        }
    }
    if p.action is All {
        let a = action_scopes("read"@, graph, kind, names);
        let b = action_scopes("write"@, graph, kind, names);
        assert(all == a + b);
        if a.contains(s) {
            assert((a + b)[a.index_of(s)] == s);
        }
        if b.contains(s) {
            assert((a + b)[a.len() + b.index_of(s)] == s);
        }
        if all.contains(s) {
            let k = all.index_of(s);
            if k < a.len() {
                assert(a[k] == s);
            } else {
                assert(b[k - a.len()] == s);
            }
        }
    }
}

proof fn lemma_action_scopes(
    action: Seq<char>,
    graph: Seq<char>,
    kind: Seq<char>,
    names: Seq<Seq<char>>,
    s: ScopeView,
)
    ensures
        action_scopes(action, graph, kind, names).contains(s) <==> s.action == action && s.graph
            == graph && s.kind == kind && names.contains(s.name),
{
    let all = action_scopes(action, graph, kind, names);
    if all.contains(s) {
        let k = all.index_of(s);
        assert(names[k] == s.name);
    }
    if s.action == action && s.graph == graph && s.kind == kind && names.contains(s.name) {
        let k = names.index_of(s.name);
        assert(all[k] == s);
    }
}

/// Granting one scope leaves the role with it: the privilege is there or is
/// written, and the grant is there or is written, from the role to the
/// privilege. Nothing that was written before is lost.
pub proof fn law_granted_scopes_are_linked(
    eff: EffectsView,
    s: ScopeView,
    role: Seq<char>,
    role_iid: Iid,
    ids: PolicyIds,
    visible: Visible,
    system: Instant,
)
    requires
        scope_granted(eff, s, role, role_iid, ids, visible, system) is Ok,
    ensures
        ({
            let out = scope_granted(eff, s, role, role_iid, ids, visible, system)->Ok_0;
            let id = "priv:"@ + s.action + ":"@ + s.kind + ":"@ + s.graph + ":"@ + s.name;
            let edge = "grant:"@ + ("role:"@ + role) + ">"@ + id;
            &&& ids.nodes@.dom().contains(id)
            &&& ids.edges@.dom().contains(edge)
            &&& if visible.edges@.dom().contains(ids.edges@[edge]) {
                out.edges == eff.edges
            } else {
                out.edges.len() == eff.edges.len() + 1 && out.edges.drop_last() == eff.edges
                    && links(
                    out.edges.last(),
                    ids.edges@[edge],
                    "GRANTED"@,
                    role_iid,
                    ids.nodes@[id],
                    system,
                )
            }
            &&& if visible.nodes@.dom().contains(ids.nodes@[id]) {
                out.nodes == eff.nodes
            } else {
                out.nodes.len() == eff.nodes.len() + 1 && out.nodes.drop_last() == eff.nodes
                    && out.nodes.last().iid == ids.nodes@[id] && (
                out.nodes.last().op matches OpView::Put { labels, doc } && labels == seq![
                    "Privilege"@,
                ] && doc.dom().contains("action"@) && doc.dom().contains("graph"@)
                    && doc.dom().contains("kind"@) && doc.dom().contains("name"@)
                    && doc["action"@] == ValueView::Str(s.action) && doc["graph"@]
                    == ValueView::Str(s.graph) && doc["kind"@] == ValueView::Str(s.kind)
                    && doc["name"@] == ValueView::Str(s.name))
            }
        }),
{
    let out = scope_granted(eff, s, role, role_iid, ids, visible, system)->Ok_0;
    lemma_privilege_fields();
    if out.edges.len() > eff.edges.len() {
        assert(out.edges.drop_last() =~= eff.edges);
    }
    if out.nodes.len() > eff.nodes.len() {
        assert(out.nodes.drop_last() =~= eff.nodes);
    }
}

proof fn lemma_privilege_fields()
    ensures
        "action"@ != "graph"@,
        "action"@ != "kind"@,
        "action"@ != "name"@,
        "graph"@ != "kind"@,
        "graph"@ != "name"@,
        "kind"@ != "name"@,
{
    reveal_strlit("action");
    reveal_strlit("graph");
    reveal_strlit("kind");
    reveal_strlit("name");
    assert("action"@.len() != "graph"@.len());
    assert("action"@.len() != "kind"@.len());
    assert("action"@.len() != "name"@.len());
    assert("graph"@.len() != "kind"@.len());
    assert("graph"@.len() != "name"@.len());
    assert("kind"@[0] != "name"@[0]);
}

/// Revoking one scope takes it from the role: where the grant is there, it is
/// deleted from now on; the privilege itself stays.
pub proof fn law_revoked_scopes_are_unlinked(
    eff: EffectsView,
    s: ScopeView,
    role: Seq<char>,
    role_iid: Iid,
    ids: PolicyIds,
    visible: Visible,
    system: Instant,
)
    requires
        scope_revoked(eff, s, role, role_iid, ids, visible, system) is Ok,
    ensures
        ({
            let out = scope_revoked(eff, s, role, role_iid, ids, visible, system)->Ok_0;
            let id = "priv:"@ + s.action + ":"@ + s.kind + ":"@ + s.graph + ":"@ + s.name;
            let edge = "grant:"@ + ("role:"@ + role) + ">"@ + id;
            &&& ids.edges@.dom().contains(edge)
            &&& out.nodes == eff.nodes
            &&& if visible.edges@.dom().contains(ids.edges@[edge]) {
                out.edges.len() == eff.edges.len() + 1 && out.edges.drop_last() == eff.edges
                    && out.edges.last().iid == ids.edges@[edge] && takes_away(
                    out.edges.last(),
                    MutKind::Delete,
                    system,
                ) && out.edges.last().src == Some(role_iid) && out.edges.last().dst == Some(
                    ids.nodes@[id],
                )
            } else {
                out.edges == eff.edges
            }
        }),
{
    let out = scope_revoked(eff, s, role, role_iid, ids, visible, system)->Ok_0;
    if out.edges.len() > eff.edges.len() {
        assert(out.edges.drop_last() =~= eff.edges);
    }
}

/// A statement that grants or revokes a privilege does so for every scope that
/// the privilege means: where a grant is there and is revoked, it goes.
pub proof fn law_every_scope_is_revoked(
    scopes: Seq<ScopeView>,
    role: Seq<char>,
    role_iid: Iid,
    ids: PolicyIds,
    visible: Visible,
    system: Instant,
    k: int,
)
    requires
        0 <= k < scopes.len(),
        try_fold(
            scopes,
            EffectsView::empty(),
            |eff: EffectsView, s: ScopeView|
                scope_revoked(eff, s, role, role_iid, ids, visible, system),
        ) is Ok,
    ensures
        ({
            let out = try_fold(
                scopes,
                EffectsView::empty(),
                |eff: EffectsView, s: ScopeView|
                    scope_revoked(eff, s, role, role_iid, ids, visible, system),
            )->Ok_0;
            let s = scopes[k];
            let id = "priv:"@ + s.action + ":"@ + s.kind + ":"@ + s.graph + ":"@ + s.name;
            let edge = "grant:"@ + ("role:"@ + role) + ">"@ + id;
            &&& ids.edges@.dom().contains(edge)
            &&& (visible.edges@.dom().contains(ids.edges@[edge]) ==> exists|j: int|
                0 <= j < out.edges.len() && (#[trigger] out.edges[j]).iid == ids.edges@[edge]
                    && out.edges[j].op is Delete)
        }),
    decreases scopes.len(),
{
    let step = |eff: EffectsView, s: ScopeView|
        scope_revoked(eff, s, role, role_iid, ids, visible, system);
    let front = scopes.drop_last();
    let mid = try_fold(front, EffectsView::empty(), step)->Ok_0;
    let out = try_fold(scopes, EffectsView::empty(), step)->Ok_0;
    law_revoked_scopes_are_unlinked(mid, scopes.last(), role, role_iid, ids, visible, system);
    let s = scopes[k];
    let id = "priv:"@ + s.action + ":"@ + s.kind + ":"@ + s.graph + ":"@ + s.name;
    let edge = "grant:"@ + ("role:"@ + role) + ">"@ + id;
    if k == scopes.len() - 1 {
        if visible.edges@.dom().contains(ids.edges@[edge]) {
            assert(out.edges[out.edges.len() - 1].iid == ids.edges@[edge]);
        }
    } else {
        law_every_scope_is_revoked(front, role, role_iid, ids, visible, system, k);
        if visible.edges@.dom().contains(ids.edges@[edge]) {
            let j = choose|j: int|
                0 <= j < mid.edges.len() && (#[trigger] mid.edges[j]).iid == ids.edges@[edge]
                    && mid.edges[j].op is Delete;
            if out.edges != mid.edges {
                assert(out.edges.drop_last()[j] == out.edges[j]);
            }
            assert(out.edges[j].iid == ids.edges@[edge]);
        }
    }
}

/// A role that is created is new and is written as a role under its name.
pub proof fn law_created_roles_are_new(
    name: String,
    ids: PolicyIds,
    visible: Visible,
    incident: IncidentEdges,
    system: Instant,
)
    requires
        ids.nodes@.dom().contains("role:"@ + name@),
    ensures
        ({
            let r = security_stmt_spec(
                SecurityStmt::CreateRole(name),
                ids,
                visible,
                incident,
                system,
            );
            let iid = ids.nodes@["role:"@ + name@];
            &&& (r is Ok <==> !visible.nodes@.dom().contains(iid))
            &&& (r matches Ok(eff) ==> {
                &&& eff.nodes.len() == 1
                &&& eff.edges.len() == 0
                &&& eff.nodes[0].iid == iid
                &&& eff.nodes[0].system_from == system
                &&& eff.nodes[0].valid_from == system
                &&& eff.nodes[0].valid_to.us == i64::MAX
                &&& (eff.nodes[0].op matches OpView::Put { labels, doc } && labels == seq![
                    "Role"@,
                ] && doc.dom().contains("name"@) && doc["name"@] == ValueView::Str(name@))
            })
        }),
{
}

/// A role that is dropped goes with every membership and every grant that stands
/// among its outgoing or its incoming edges.
pub proof fn law_dropped_roles_go_with_their_edges(
    name: String,
    ids: PolicyIds,
    visible: Visible,
    incident: IncidentEdges,
    system: Instant,
)
    requires
        security_stmt_spec(SecurityStmt::DropRole(name), ids, visible, incident, system) is Ok,
    ensures
        ({
            let eff = security_stmt_spec(
                SecurityStmt::DropRole(name),
                ids,
                visible,
                incident,
                system,
            )->Ok_0;
            let iid = ids.nodes@["role:"@ + name@];
            &&& visible.nodes@.dom().contains(iid)
            &&& eff.nodes.len() == 1
            &&& eff.nodes[0].iid == iid
            &&& takes_away(eff.nodes[0], MutKind::Delete, system)
            &&& forall|edge: Iid, ends: (Iid, Iid)| #[trigger]
                listed_at(incident, iid, edge, ends) ==> exists|k: int|
                    0 <= k < eff.edges.len() && (#[trigger] eff.edges[k]).iid == edge
            &&& forall|k: int|
                0 <= k < eff.edges.len() ==> takes_away(
                    #[trigger] eff.edges[k],
                    MutKind::Delete,
                    system,
                ) && eff.edges[k].src is Some && eff.edges[k].dst is Some && listed_at(
                    incident,
                    iid,
                    eff.edges[k].iid,
                    (eff.edges[k].src->0, eff.edges[k].dst->0),
                )
        }),
{
    let iid = ids.nodes@["role:"@ + name@];
    let nodes = Set::<Iid>::empty().insert(iid);
    let edges = incident_edges_of(nodes, incident);
    let eff = security_stmt_spec(SecurityStmt::DropRole(name), ids, visible, incident, system)->Ok_0;
    let half = edges_gone(edges, visible, MutKind::Delete, system);
    let one = seq![iid];
    let es = sorted_seq::<Iid>(edges.dom());
    assert(one.to_set() =~= nodes) by {
        assert(one[0] == iid);
    }
    lemma_sorted_seq::<Iid>(one);
    law_attached_edges_are_those_listed(nodes, incident);
    lemma_sorted_exists::<Iid>(edges.dom());
    lemma_edges_gone(edges, es, visible, MutKind::Delete, system);
    lemma_edges_keep_nodes(edges, es, visible, MutKind::Delete, system);
    lemma_nodes_gone(half, one, visible, MutKind::Delete, system);
    lemma_nodes_keep_edges(half, one, visible, MutKind::Delete, system);
    let gone = |x: Iid| crate::delete::gone_event(x, Some(edges[x]), MutKind::Delete, system);
    assert(eff.edges == es.map_values(gone));
    assert forall|edge: Iid, ends: (Iid, Iid)| #[trigger]
        listed_at(incident, iid, edge, ends) implies exists|k: int|
        0 <= k < eff.edges.len() && (#[trigger] eff.edges[k]).iid == edge by {
        assert(nodes.contains(iid));
        assert(edges.dom().contains(edge));
        assert(es.to_set().contains(edge));
        assert(eff.edges[es.index_of(edge)].iid == edge);
    }
    assert forall|k: int| 0 <= k < eff.edges.len() implies takes_away(
        #[trigger] eff.edges[k],
        MutKind::Delete,
        system,
    ) && eff.edges[k].src is Some && eff.edges[k].dst is Some && listed_at(
        incident,
        iid,
        eff.edges[k].iid,
        (eff.edges[k].src->0, eff.edges[k].dst->0),
    ) by {
        let x = es[k];
        assert(eff.edges[k] == gone(x));
        assert(es.to_set().contains(x));
        assert(edges.dom().contains(x));
        assert(edges[x] == (edges[x].0, edges[x].1));
    }
}

proof fn lemma_middle(p: Seq<char>, x: Seq<char>, y: Seq<char>, t: Seq<char>)
    requires
        p + x + t == p + y + t,
    ensures
        x == y,
{
    let a = p + x + t;
    let b = p + y + t;
    assert(a.len() == b.len());
    assert(x =~= y) by {
        assert forall|i: int| 0 <= i < x.len() implies x[i] == y[i] by {
            assert(a[p.len() + i] == x[i]);
            assert(b[p.len() + i] == y[i]);
        }
    }
}

/// Two privileges that differ in one part alone are kept apart, and so are the
/// memberships of two members in one role and of one member in two roles.
pub proof fn law_policy_names_are_told_apart(
    action: Seq<char>,
    graph: Seq<char>,
    kind: Seq<char>,
    name: Seq<char>,
    other: Seq<char>,
)
    ensures
        privilege_node_id_spec(action, graph, kind, name) == privilege_node_id_spec(
            other,
            graph,
            kind,
            name,
        ) ==> action == other,
        privilege_node_id_spec(action, graph, kind, name) == privilege_node_id_spec(
            action,
            other,
            kind,
            name,
        ) ==> graph == other,
        privilege_node_id_spec(action, graph, kind, name) == privilege_node_id_spec(
            action,
            graph,
            other,
            name,
        ) ==> kind == other,
        privilege_node_id_spec(action, graph, kind, name) == privilege_node_id_spec(
            action,
            graph,
            kind,
            other,
        ) ==> name == other,
        user_node_id_spec(name) == user_node_id_spec(other) ==> name == other,
        role_node_id_spec(name) == role_node_id_spec(other) ==> name == other,
        user_node_id_spec(name) != role_node_id_spec(other),
        member_edge_id_spec(name, graph) == member_edge_id_spec(other, graph) ==> name == other,
        member_edge_id_spec(name, graph) == member_edge_id_spec(name, other) ==> graph == other,
        grant_edge_id_spec(name, graph) == grant_edge_id_spec(other, graph) ==> name == other,
        grant_edge_id_spec(name, graph) == grant_edge_id_spec(name, other) ==> graph == other,
{
    let none = Seq::<char>::empty();
    let c = ":"@;
    let id = privilege_node_id_spec(action, graph, kind, name);
    if id == privilege_node_id_spec(other, graph, kind, name) {
        let t = c + kind + c + graph + c + name;
        assert(id =~= "priv:"@ + action + t);
        assert(id =~= "priv:"@ + other + t);
        lemma_middle("priv:"@, action, other, t);
    }
    if id == privilege_node_id_spec(action, other, kind, name) {
        let p = "priv:"@ + action + c + kind + c;
        let t = c + name;
        assert(id =~= p + graph + t);
        assert(id =~= p + other + t);
        lemma_middle(p, graph, other, t);
    }
    if id == privilege_node_id_spec(action, graph, other, name) {
        let p = "priv:"@ + action + c;
        let t = c + graph + c + name;
        assert(id =~= p + kind + t);
        assert(id =~= p + other + t);
        lemma_middle(p, kind, other, t);
    }
    if id == privilege_node_id_spec(action, graph, kind, other) {
        let p = "priv:"@ + action + c + kind + c + graph + c;
        assert(id =~= p + name + none);
        assert(id =~= p + other + none);
        lemma_middle(p, name, other, none);
    }
    if user_node_id_spec(name) == user_node_id_spec(other) {
        assert(user_node_id_spec(name) =~= "user:"@ + name + none);
        assert(user_node_id_spec(other) =~= "user:"@ + other + none);
        lemma_middle("user:"@, name, other, none);
    }
    if role_node_id_spec(name) == role_node_id_spec(other) {
        assert(role_node_id_spec(name) =~= "role:"@ + name + none);
        assert(role_node_id_spec(other) =~= "role:"@ + other + none);
        lemma_middle("role:"@, name, other, none);
    }
    reveal_strlit("user:");
    reveal_strlit("role:");
    assert(user_node_id_spec(name)[0] == 'u');
    assert(role_node_id_spec(other)[0] == 'r');
    if member_edge_id_spec(name, graph) == member_edge_id_spec(other, graph) {
        assert(member_edge_id_spec(name, graph) =~= "member:"@ + name + (">"@ + graph));
        assert(member_edge_id_spec(other, graph) =~= "member:"@ + other + (">"@ + graph));
        lemma_middle("member:"@, name, other, ">"@ + graph);
    }
    if member_edge_id_spec(name, graph) == member_edge_id_spec(name, other) {
        let p = "member:"@ + name + ">"@;
        assert(member_edge_id_spec(name, graph) =~= p + graph + none);
        assert(member_edge_id_spec(name, other) =~= p + other + none);
        lemma_middle(p, graph, other, none);
    }
    if grant_edge_id_spec(name, graph) == grant_edge_id_spec(other, graph) {
        assert(grant_edge_id_spec(name, graph) =~= "grant:"@ + name + (">"@ + graph));
        assert(grant_edge_id_spec(other, graph) =~= "grant:"@ + other + (">"@ + graph));
        lemma_middle("grant:"@, name, other, ">"@ + graph);
    }
    if grant_edge_id_spec(name, graph) == grant_edge_id_spec(name, other) {
        let p = "grant:"@ + name + ">"@;
        assert(grant_edge_id_spec(name, graph) =~= p + graph + none);
        assert(grant_edge_id_spec(name, other) =~= p + other + none);
        lemma_middle(p, graph, other, none);
    }
}

} // verus!
