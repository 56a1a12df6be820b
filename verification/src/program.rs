//! Resolving a program of statements into one transaction.
//!
//! A program is admitted, then its statements are resolved one after another;
//! each sees what the ones before it did. Any failure fails the whole program.

use crate::ast::{MutKind, Statement};
use crate::bindings::BindingKind;
use crate::effects::{Effects, EffectsView, TxReceipt};
use crate::error::{EngineError, ErrorView};
use crate::event::{Event, EventView, Op, OpView};
use crate::security::{GraphGrants, Grants, GrantsView, SECURITY_GRAPH};
use crate::sorted::{
    extend_set, lemma_set_items, lemma_set_items_sorted, sorted_seq, SortedSet,
};
use crate::state::{GraphsState, TableKind, DEFAULT_GRAPH, META_GRAPH};
use crate::text::{concat3, text_is, views};
use crate::types::{Iid, Instant};
use crate::visible::Visible;
use vstd::prelude::*;
use vstd::string::StringExecFns;

verus! {

/// What a program is made of.
#[derive(Clone, Copy, Debug, PartialEq, Eq, Structural)]
pub enum Shape {
    /// Statements on the catalog of graphs.
    Catalog,
    /// Statements on the access policy.
    Policy,
    /// Statements on the data of one graph.
    Data,
}

pub open spec fn is_catalog(s: Statement) -> bool {
    s is Graph
}

pub open spec fn is_policy(s: Statement) -> bool {
    s is Security
}

pub open spec fn is_data(s: Statement) -> bool {
    !(s is Graph) && !(s is Security)
}

pub open spec fn is_show(s: Statement) -> bool {
    s matches Statement::Security(sec) && sec.is_show_spec()
}

/// Some statement is a statement on the catalog; likewise below.
pub open spec fn has_catalog(stmts: Seq<Statement>) -> bool {
    exists|i: int| 0 <= i < stmts.len() && is_catalog(#[trigger] stmts[i])
}

pub open spec fn has_policy(stmts: Seq<Statement>) -> bool {
    exists|i: int| 0 <= i < stmts.len() && is_policy(#[trigger] stmts[i])
}

pub open spec fn has_data(stmts: Seq<Statement>) -> bool {
    exists|i: int| 0 <= i < stmts.len() && is_data(#[trigger] stmts[i])
}

pub open spec fn has_show(stmts: Seq<Statement>) -> bool {
    exists|i: int| 0 <= i < stmts.len() && is_show(#[trigger] stmts[i])
}

/// The shape of a program. It must not be empty, must not show the policy,
/// and must not mix kinds of statements.
pub open spec fn shape_spec(stmts: Seq<Statement>) -> Result<Shape, ErrorView> {
    if stmts.len() == 0 || has_show(stmts) {
        Err(ErrorView::NotAMutation)
    } else if (has_catalog(stmts) || has_policy(stmts)) && has_data(stmts) || has_catalog(stmts)
        && has_policy(stmts) {
        Err(
            ErrorView::Unsupported(
                "mixing catalog/security and data statements in one transaction"@,
            ),
        )
    } else if has_catalog(stmts) {
        Ok(Shape::Catalog)
    } else if has_policy(stmts) {
        Ok(Shape::Policy)
    } else {
        Ok(Shape::Data)
    }
}

/// The shape of a program, or why it has none.
pub fn program_shape(stmts: &Vec<Statement>) -> (r: Result<Shape, EngineError>)
    ensures
        match r {
            Ok(s) => shape_spec(stmts@) == Ok::<Shape, ErrorView>(s),
            Err(e) => shape_spec(stmts@) == Err::<Shape, ErrorView>(e@),
        },
{
    if stmts.len() == 0 {
        return Err(EngineError::NotAMutation);
    }
    let mut catalog = false;
    let mut policy = false;
    let mut data = false;
    let mut show = false;
    let mut i: usize = 0;
    while i < stmts.len()
        invariant
            i <= stmts.len(),
            catalog == exists|k: int| 0 <= k < i && is_catalog(#[trigger] stmts@[k]),
            policy == exists|k: int| 0 <= k < i && is_policy(#[trigger] stmts@[k]),
            data == exists|k: int| 0 <= k < i && is_data(#[trigger] stmts@[k]),
            show == exists|k: int| 0 <= k < i && is_show(#[trigger] stmts@[k]),
        decreases stmts.len() - i,
    {
        let ghost here = stmts@[i as int];
        let ghost before = (catalog, policy, data, show);
        match &stmts[i] {
            Statement::Graph(_) => {
                catalog = true;
            },
            Statement::Security(s) => {
                policy = true;
                if s.is_show() {
                    show = true;
                }
            },
            _ => {
                data = true;
            },
        }
        proof {
            assert(is_catalog(here) ==> catalog);
            if before.0 {
                let k = choose|k: int| 0 <= k < i && is_catalog(#[trigger] stmts@[k]);
                assert(0 <= k < i + 1 && is_catalog(stmts@[k]));
            }
            if before.1 {
                let k = choose|k: int| 0 <= k < i && is_policy(#[trigger] stmts@[k]);
                assert(0 <= k < i + 1 && is_policy(stmts@[k]));
            }
            if before.2 {
                let k = choose|k: int| 0 <= k < i && is_data(#[trigger] stmts@[k]);
                assert(0 <= k < i + 1 && is_data(stmts@[k]));
            }
            if before.3 {
                let k = choose|k: int| 0 <= k < i && is_show(#[trigger] stmts@[k]);
                assert(0 <= k < i + 1 && is_show(stmts@[k]));
            }
        }
        i += 1;
    }
    if show {
        return Err(EngineError::NotAMutation);
    }
    if (catalog || policy) && data || catalog && policy {
        return Err(
            EngineError::Unsupported(
                "mixing catalog/security and data statements in one transaction".to_owned(),
            ),
        );
    }
    if catalog {
        Ok(Shape::Catalog)
    } else if policy {
        Ok(Shape::Policy)
    } else {
        Ok(Shape::Data)
    }
}

pub open spec fn not_admin_error(user: Seq<char>) -> ErrorView {
    ErrorView::AccessDenied(
        "user '"@ + user
            + "' is not an administrator (catalog and security DDL require ADMIN)"@,
    )
}

/// Whether a program of a shape may run: data needs its graph, the rest needs
/// an administrator. Nothing is used up by a program that may not.
pub fn admit_program(
    shape: Shape,
    state: &GraphsState,
    graph: &String,
    user: &String,
    is_admin: bool,
) -> (r: Result<(), EngineError>)
    requires
        state.wf(),
    ensures
        match r {
            Ok(()) => if shape == Shape::Data {
                state@.graphs.dom().contains(graph@)
            } else {
                is_admin
            },
            Err(e) => if shape == Shape::Data {
                !state@.graphs.dom().contains(graph@) && e@ == ErrorView::UnknownGraph(graph@)
            } else {
                !is_admin && e@ == not_admin_error(user@)
            },
        },
{
    match shape {
        Shape::Data => {
            if !state.has_graph(graph.as_str()) {
                return Err(EngineError::UnknownGraph(graph.clone()));
            }
        },
        _ => {
            if !is_admin {
                return Err(
                    EngineError::AccessDenied(
                        concat3(
                            "user '",
                            user.as_str(),
                            "' is not an administrator (catalog and security DDL require ADMIN)",
                        ),
                    ),
                );
            }
        },
    }
    Ok(())
}

/// The graph that the effects of a program go to.
pub open spec fn effect_graph_spec(shape: Shape, graph: Seq<char>) -> Seq<char> {
    match shape {
        Shape::Catalog => META_GRAPH@,
        Shape::Policy => SECURITY_GRAPH@,
        Shape::Data => graph,
    }
}

/// A transaction in the making: its number, its time, and the effects of the
/// statements resolved so far. Later statements read these effects together
/// with the committed state.
pub struct Transaction {
    pub tx_id: u64,
    pub system: Instant,
    pub graph: String,
    pub effects: Effects,
    pub created: u64,
}

impl Transaction {
    pub open spec fn wf(&self) -> bool {
        self.effects.wf()
    }

    /// Begins a transaction, with the next number.
    pub fn begin(next_tx_id: &mut u64, shape: Shape, graph: &String, system: Instant) -> (r:
        Transaction)
        requires
            *old(next_tx_id) < u64::MAX,
        ensures
            r.wf(),
            *final(next_tx_id) == *old(next_tx_id) + 1,
            r.tx_id == *final(next_tx_id),
            r.system == system,
            r.graph@ == effect_graph_spec(shape, graph@),
            r.effects@ == EffectsView::empty(),
            r.created == 0,
    {
        *next_tx_id = *next_tx_id + 1;
        let graph = match shape {
            Shape::Catalog => META_GRAPH.to_owned(),
            Shape::Policy => SECURITY_GRAPH.to_owned(),
            Shape::Data => graph.clone(),
        };
        Transaction { tx_id: *next_tx_id, system, graph, effects: Effects::new(), created: 0 }
    }

    /// Adds the effects of one more statement, which created `created` elements.
    pub fn absorb(&mut self, effects: Effects, created: u64)
        requires
            old(self).wf(),
            effects.wf(),
            old(self).created + created <= u64::MAX,
        ensures
            final(self).wf(),
            final(self).effects@ == old(self).effects@.merged(effects@),
            final(self).created == old(self).created + created,
            final(self).tx_id == old(self).tx_id,
            final(self).system == old(self).system,
            final(self).graph == old(self).graph,
    {
        self.effects.merge(effects);
        self.created = self.created + created;
    }

    /// Finishes the transaction.
    pub fn seal(self, user: &String) -> (r: SealedTx)
        requires
            self.wf(),
        ensures
            r.effects == self.effects,
            r.graph == self.graph,
            r.user@ == user@,
            r.receipt.tx_id == self.tx_id,
            r.receipt.system_time == self.system,
            r.receipt.side_effects == self.effects.side_effects,
            r.receipt.user@ == user@,
            views(r.tables@) == tables_spec(self.effects@, self.graph@),
    {
        seal_effects(self.tx_id, self.system, user, self.graph, self.effects)
    }
}

/// The part of a log record on one table; its events are those of that table.
#[derive(Debug)]
pub struct TableHeader {
    pub table: TableKind,
    pub graph: String,
}

#[verifier::ext_equal]
pub struct TableHeaderView {
    pub table: TableKind,
    pub graph: Seq<char>,
}

impl View for TableHeader {
    type V = TableHeaderView;

    open spec fn view(&self) -> TableHeaderView {
        TableHeaderView { table: self.table, graph: self.graph@ }
    }
}

/// A resolved transaction: what its log record holds, and its receipt.
pub struct SealedTx {
    pub graph: String,
    pub user: String,
    pub tables: Vec<TableHeader>,
    pub effects: Effects,
    pub receipt: TxReceipt,
}

/// How a graph is named in a record: the default graph is not named.
pub open spec fn wire_graph(graph: Seq<char>) -> Seq<char> {
    if graph == DEFAULT_GRAPH@ {
        Seq::empty()
    } else {
        graph
    }
}

/// The parts of a record: one for each table with events, nodes first.
pub open spec fn tables_spec(eff: EffectsView, graph: Seq<char>) -> Seq<TableHeaderView> {
    let nodes = if eff.nodes.len() > 0 {
        seq![TableHeaderView { table: TableKind::Nodes, graph: wire_graph(graph) }]
    } else {
        Seq::empty()
    };
    let edges = if eff.edges.len() > 0 {
        seq![TableHeaderView { table: TableKind::Edges, graph: wire_graph(graph) }]
    } else {
        Seq::empty()
    };
    nodes + edges
}

/// The record and the receipt of a resolved transaction.
pub fn seal_effects(
    tx_id: u64,
    system: Instant,
    user: &String,
    graph: String,
    effects: Effects,
) -> (r: SealedTx)
    requires
        effects.wf(),
    ensures
        r.effects == effects,
        r.graph == graph,
        r.user@ == user@,
        r.receipt.tx_id == tx_id,
        r.receipt.system_time == system,
        r.receipt.side_effects == effects.side_effects,
        r.receipt.user@ == user@,
        views(r.tables@) == tables_spec(effects@, graph@),
{
    let wire = if text_is(&graph, DEFAULT_GRAPH) {
        String::new()
    } else {
        graph.clone()
    };
    assert(wire@ =~= wire_graph(graph@));
    let mut tables: Vec<TableHeader> = Vec::new();
    if effects.nodes.len() > 0 {
        tables.push(TableHeader { table: TableKind::Nodes, graph: wire.clone() });
    }
    if effects.edges.len() > 0 {
        tables.push(TableHeader { table: TableKind::Edges, graph: wire });
    }
    assert(views(tables@) =~= tables_spec(effects@, graph@));
    let receipt = TxReceipt {
        tx_id,
        system_time: system,
        side_effects: effects.side_effects,
        user: user.clone(),
    };
    SealedTx { graph, user: user.clone(), tables, effects, receipt }
}

/// How `{:?}` of the standard formatter shows a list of strings.
pub uninterp spec fn debug_list(texts: Seq<Seq<char>>) -> Seq<char>;

/// `std::fmt`: the list of strings as `{:?}` shows it, with the brackets, the
/// quotes and the escapes of that format. What it shows depends on the strings
/// alone.
#[verifier::external_body]
fn debug_texts(texts: &Vec<String>) -> (r: String)
    ensures
        r@ == debug_list(views(texts@)),
{
    format!("{:?}", texts)
}

/// The labels that govern a change: the new ones of a put, and those that the
/// element has now.
pub open spec fn governing_labels(op: OpView, visible: Visible, kind: BindingKind, iid: Iid) -> Set<
    Seq<char>,
> {
    let new = match op {
        OpView::Put { labels, .. } => labels.to_set(),
        _ => Set::empty(),
    };
    match visible.lookup(kind, iid) {
        Some(p) => new.union(p.labels.to_set()),
        None => new,
    }
}

/// The governing labels that are not granted.
pub open spec fn denied_labels(labels: Set<Seq<char>>, grants: GrantsView) -> Set<Seq<char>> {
    labels.difference(grants.names)
}

/// Whether a change may be made: some label governs it, and all are granted.
pub open spec fn write_allowed(labels: Set<Seq<char>>, grants: GrantsView) -> bool {
    grants.wildcard || (labels.len() > 0 && denied_labels(labels, grants).len() == 0)
}

pub open spec fn write_denied_error(
    user: Seq<char>,
    what: Seq<char>,
    denied: Set<Seq<char>>,
    graph: Seq<char>,
) -> ErrorView {
    ErrorView::AccessDenied(
        "user '"@ + user + "' lacks WRITE on "@ + what + " "@ + debug_list(
            sorted_seq::<String>(denied),
        ) + " in graph '"@ + graph + "'"@,
    )
}

/// The first event from `i` on that may not be written, as an error.
pub open spec fn first_denied(
    events: Seq<EventView>,
    i: int,
    kind: BindingKind,
    grants: GrantsView,
    visible: Visible,
    user: Seq<char>,
    what: Seq<char>,
    graph: Seq<char>,
) -> Option<ErrorView>
    decreases events.len() - i,
{
    if i < 0 || i >= events.len() {
        None
    } else {
        let labels = governing_labels(events[i].op, visible, kind, events[i].iid);
        if !write_allowed(labels, grants) {
            Some(write_denied_error(user, what, denied_labels(labels, grants), graph))
        } else {
            first_denied(events, i + 1, kind, grants, visible, user, what, graph)
        }
    }
}

fn labels_of(event: &Event, visible: &Visible, kind: BindingKind) -> (r: SortedSet<String>)
    requires
        visible.wf(),
    ensures
        r.wf(),
        r@ == governing_labels(event.op@, *visible, kind, event.iid),
{
    let mut labels: SortedSet<String> = SortedSet::new();
    match &event.op {
        Op::Put { labels: new, .. } => {
            extend_set(&mut labels, new);
            assert(labels@ =~= views(new@).to_set());
        },
        _ => {},
    }
    match visible.get(kind, event.iid) {
        Some(p) => {
            extend_set(&mut labels, &p.labels);
        },
        None => {},
    }
    labels
}

fn denied_of(labels: &SortedSet<String>, grants: &Grants) -> (r: Vec<String>)
    requires
        labels.wf(),
        grants.wf(),
    ensures
        views(r@) == sorted_seq::<String>(denied_labels(labels@, grants@)),
        (r@.len() == 0) == (denied_labels(labels@, grants@).len() == 0),
{
    let n = labels.len();
    let ghost items = labels.items();
    let ghost names = grants@.names;
    let mut set: SortedSet<String> = SortedSet::new();
    let mut denied: Vec<String> = Vec::new();
    let mut i: usize = 0;
    proof {
        lemma_set_items(*labels);
    }
    while i < n
        invariant
            i <= n,
            n == items.len(),
            items == labels.items(),
            items.to_set() == labels@,
            grants.wf(),
            names == grants@.names,
            set.wf(),
            forall|x: Seq<char>| #[trigger]
                set@.contains(x) ==> labels@.contains(x) && !names.contains(x),
            forall|k: int|
                0 <= k < i && !names.contains(#[trigger] items[k]) ==> set@.contains(items[k]),
        decreases n - i,
    {
        let label = labels.item_at(i);
        proof {
            assert(items.to_set().contains(items[i as int]));
        }
        if !grants.names.contains(label) {
            set.insert(label.clone());
        }
        i += 1;
    }
    proof {
        assert(set@ =~= denied_labels(labels@, grants@)) by {
            assert forall|x: Seq<char>| denied_labels(labels@, grants@).contains(x) implies set@.contains(x) by {
                let j = items.index_of(x);
                assert(items[j] == x);
            }
        }
        lemma_set_items(set);
        lemma_set_items_sorted(set);
    }
    let m = set.len();
    let mut k: usize = 0;
    while k < m
        invariant
            k <= m,
            m == set.items().len(),
            denied@.len() == k,
            forall|j: int| 0 <= j < k ==> (#[trigger] denied@[j])@ == set.items()[j],
        decreases m - k,
    {
        denied.push(set.item_at(k).clone());
        k += 1;
    }
    assert(views(denied@) =~= set.items());
    denied
}

fn enforce_events(
    events: &Vec<Event>,
    kind: BindingKind,
    grants: &Grants,
    visible: &Visible,
    user: &str,
    what: &str,
    graph: &str,
) -> (r: Result<(), EngineError>)
    requires
        visible.wf(),
        grants.wf(),
    ensures
        match r {
            Ok(()) => first_denied(
                views(events@),
                0,
                kind,
                grants@,
                *visible,
                user@,
                what@,
                graph@,
            ) is None,
            Err(e) => first_denied(
                views(events@),
                0,
                kind,
                grants@,
                *visible,
                user@,
                what@,
                graph@,
            ) == Some(e@),
        },
{
    let ghost all = views(events@);
    let mut i: usize = 0;
    while i < events.len()
        invariant
            i <= events.len(),
            all == views(events@),
            visible.wf(),
            grants.wf(),
            first_denied(all, 0, kind, grants@, *visible, user@, what@, graph@)
                == first_denied(
                all,
                i as int,
                kind,
                grants@,
                *visible,
                user@,
                what@,
                graph@,
            ),
        decreases events.len() - i,
    {
        assert(all[i as int] == events@[i as int]@);
        if !grants.wildcard {
            let labels = labels_of(&events[i], visible, kind);
            let denied = denied_of(&labels, grants);
            if labels.len() == 0 || denied.len() > 0 {
                let mut text = "user '".to_owned();
                text.append(user);
                text.append("' lacks WRITE on ");
                text.append(what);
                text.append(" ");
                text.append(debug_texts(&denied).as_str());
                text.append(" in graph '");
                text.append(graph);
                text.append("'");
                return Err(EngineError::AccessDenied(text));
            }
        }
        i += 1;
    }
    Ok(())
}

/// Whether the effects of a statement may be written: every label of every node
/// it touches, and every type of every edge, must be granted. The first that is
/// not refuses it.
pub open spec fn enforce_spec(
    effects: EffectsView,
    grants: GraphGrants,
    visible: Visible,
    user: Seq<char>,
    graph: Seq<char>,
) -> Option<ErrorView> {
    match first_denied(
        effects.nodes,
        0,
        BindingKind::Node,
        grants.write_nodes@,
        visible,
        user,
        "node labels"@,
        graph,
    ) {
        Some(e) => Some(e),
        None => first_denied(
            effects.edges,
            0,
            BindingKind::Edge,
            grants.write_edges@,
            visible,
            user,
            "edge types"@,
            graph,
        ),
    }
}

/// Refuses the effects of a statement that the user may not write. `visible`
/// holds what the elements it touches are now.
pub fn enforce_write_effects(
    effects: &Effects,
    grants: &GraphGrants,
    visible: &Visible,
    user: &str,
    graph: &str,
) -> (r: Result<(), EngineError>)
    requires
        visible.wf(),
        grants.wf(),
    ensures
        match r {
            Ok(()) => enforce_spec(effects@, *grants, *visible, user@, graph@) is None,
            Err(e) => enforce_spec(effects@, *grants, *visible, user@, graph@) == Some(e@),
        },
{
    match enforce_events(
        &effects.nodes,
        BindingKind::Node,
        &grants.write_nodes,
        visible,
        user,
        "node labels",
        graph,
    ) {
        Ok(()) => {},
        Err(e) => {
            return Err(e);
        },
    }
    enforce_events(
        &effects.edges,
        BindingKind::Edge,
        &grants.write_edges,
        visible,
        user,
        "edge types",
        graph,
    )
}

/// A statement reads where resolving it must see every transaction before.
pub open spec fn statement_reads_spec(s: Statement) -> bool {
    match s {
        Statement::Mutate(_) => true,
        Statement::Insert(ins) => ins.match_part is Some,
        Statement::Assign(_) => true,
        Statement::Remove(_) => true,
        Statement::Query => false,
        Statement::Graph(_) => false,
        Statement::Security(_) => true,
    }
}

/// Whether resolving a statement must see every transaction before.
pub fn statement_reads(s: &Statement) -> (r: bool)
    ensures
        r == statement_reads_spec(*s),
{
    match s {
        Statement::Mutate(m) => match m.kind {
            MutKind::Delete => true,
            MutKind::Erase => true,
        },
        Statement::Insert(ins) => ins.match_part.is_some(),
        Statement::Assign(_) => true,
        Statement::Remove(_) => true,
        Statement::Query => false,
        Statement::Graph(_) => false,
        Statement::Security(_) => true,
    }
}

pub open spec fn program_reads_spec(stmts: Seq<Statement>) -> bool {
    exists|i: int| 0 <= i < stmts.len() && statement_reads_spec(#[trigger] stmts[i])
}

/// Whether resolving a program must see every transaction before.
pub fn program_reads(stmts: &Vec<Statement>) -> (r: bool)
    ensures
        r == program_reads_spec(stmts@),
{
    let mut i: usize = 0;
    while i < stmts.len()
        invariant
            i <= stmts.len(),
            forall|k: int| 0 <= k < i ==> !statement_reads_spec(#[trigger] stmts@[k]),
        decreases stmts.len() - i,
    {
        if statement_reads(&stmts[i]) {
            assert(statement_reads_spec(stmts@[i as int]));
            return true;
        }
        i += 1;
    }
    false
}

/// The labels that decide whether an event may be written: those it writes and
/// those that the element is visible with.
pub open spec fn governed_by(e: EventView, visible: Visible, kind: BindingKind, l: Seq<char>) -> bool {
    (e.op matches OpView::Put { labels, .. } && labels.contains(l)) || (visible.lookup(kind, e.iid)
        matches Some(p) && p.labels.contains(l))
}

proof fn lemma_governing(e: EventView, visible: Visible, kind: BindingKind)
    ensures
        governing_labels(e.op, visible, kind, e.iid).finite(),
        forall|l: Seq<char>| #[trigger]
            governing_labels(e.op, visible, kind, e.iid).contains(l) <==> governed_by(
                e,
                visible,
                kind,
                l,
            ),
{
    match e.op {
        OpView::Put { labels, .. } => {
            vstd::seq_lib::seq_to_set_is_finite(labels);
        },
        _ => {},
    }
    match visible.lookup(kind, e.iid) {
        Some(p) => {
            vstd::seq_lib::seq_to_set_is_finite(p.labels);
        },
        None => {},
    }
}

proof fn lemma_none_denied(
    events: Seq<EventView>,
    i: int,
    kind: BindingKind,
    grants: GrantsView,
    visible: Visible,
    user: Seq<char>,
    what: Seq<char>,
    graph: Seq<char>,
)
    requires
        0 <= i <= events.len(),
    ensures
        first_denied(events, i, kind, grants, visible, user, what, graph) is None <==> forall|
            k: int,
        |
            i <= k < events.len() ==> may_write(#[trigger] events[k], kind, grants, visible),
    decreases events.len() - i,
{
    if i < events.len() {
        lemma_none_denied(events, i + 1, kind, grants, visible, user, what, graph);
        let labels = governing_labels(events[i].op, visible, kind, events[i].iid);
        lemma_governing(events[i], visible, kind);
        let denied = denied_labels(labels, grants);
        if !grants.wildcard {
            if write_allowed(labels, grants) {
                let l = labels.choose();
                assert(labels.contains(l));
                assert(governed_by(events[i], visible, kind, l));
                assert(denied =~= Set::<Seq<char>>::empty());
                assert forall|l: Seq<char>| #[trigger]
                    governed_by(events[i], visible, kind, l) implies grants.names.contains(l) by {
                    assert(labels.contains(l));
                    assert(!denied.contains(l));
                }
            }
            if may_write(events[i], kind, grants, visible) {
                let l = choose|l: Seq<char>| #[trigger] governed_by(events[i], visible, kind, l);
                assert(labels.contains(l));
                assert(labels.len() > 0) by {
                    if labels.len() == 0 {
                        assert(labels =~= Set::<Seq<char>>::empty());
                    }
                }
                assert(denied =~= Set::<Seq<char>>::empty());
            }
        }
        assert(write_allowed(labels, grants) <==> may_write(events[i], kind, grants, visible));
    }
}

/// The event may be written with these grants: all names are granted, or it is
/// governed by some label and every label that governs it is granted.
pub open spec fn may_write(
    e: EventView,
    kind: BindingKind,
    grants: GrantsView,
    visible: Visible,
) -> bool {
    grants.wildcard || ((exists|l: Seq<char>| #[trigger] governed_by(e, visible, kind, l))
        && forall|l: Seq<char>| #[trigger]
        governed_by(e, visible, kind, l) ==> grants.names.contains(l))
}

/// Effects are admitted exactly where every node and every edge that they write
/// or take away may be written: by the labels it gets and by those it has.
pub proof fn law_every_write_needs_its_labels(
    effects: EffectsView,
    grants: GraphGrants,
    visible: Visible,
    user: Seq<char>,
    graph: Seq<char>,
)
    ensures
        enforce_spec(effects, grants, visible, user, graph) is None <==> (forall|k: int|
            0 <= k < effects.nodes.len() ==> may_write(
                #[trigger] effects.nodes[k],
                BindingKind::Node,
                grants.write_nodes@,
                visible,
            )) && (forall|k: int|
            0 <= k < effects.edges.len() ==> may_write(
                #[trigger] effects.edges[k],
                BindingKind::Edge,
                grants.write_edges@,
                visible,
            )),
{
    lemma_none_denied(
        effects.nodes,
        0,
        BindingKind::Node,
        grants.write_nodes@,
        visible,
        user,
        "node labels"@,
        graph,
    );
    lemma_none_denied(
        effects.edges,
        0,
        BindingKind::Edge,
        grants.write_edges@,
        visible,
        user,
        "edge types"@,
        graph,
    );
}

/// A program is of one shape: statements on the catalog, on the policy or on
/// data, never of two; one that shows something is no mutation.
pub proof fn law_programs_are_of_one_shape(stmts: Seq<Statement>, i: int)
    requires
        shape_spec(stmts) is Ok,
        0 <= i < stmts.len(),
    ensures
        shape_spec(stmts)->Ok_0 is Catalog <==> stmts[i] is Graph,
        shape_spec(stmts)->Ok_0 is Policy <==> stmts[i] is Security,
        stmts[i] matches Statement::Security(s) ==> !(s is ShowRoles) && !(s is ShowGrants),
{
    assert(is_catalog(stmts[i]) || is_policy(stmts[i]) || is_data(stmts[i]));
    if stmts[i] is Security {
        assert(is_policy(stmts[i]));
        assert(!is_show(stmts[i]));
    }
}

/// What a transaction writes goes to the catalog, to the policy or to the graph
/// that it names, by its shape; a record holds a table exactly where something
/// was written to it.
pub proof fn law_effects_go_to_the_graph_of_their_shape(eff: EffectsView, graph: Seq<char>)
    ensures
        effect_graph_spec(Shape::Catalog, graph) == "__meta"@,
        effect_graph_spec(Shape::Policy, graph) == "__security"@,
        effect_graph_spec(Shape::Data, graph) == graph,
        (exists|k: int|
            0 <= k < tables_spec(eff, graph).len() && (#[trigger] tables_spec(
                eff,
                graph,
            )[k]).table is Nodes) <==> eff.nodes.len() > 0,
        (exists|k: int|
            0 <= k < tables_spec(eff, graph).len() && (#[trigger] tables_spec(
                eff,
                graph,
            )[k]).table is Edges) <==> eff.edges.len() > 0,
        forall|k: int|
            0 <= k < tables_spec(eff, graph).len() ==> (#[trigger] tables_spec(
                eff,
                graph,
            )[k]).graph == (if graph == "default"@ {
                Seq::<char>::empty()
            } else {
                graph
            }),
{
    let all = tables_spec(eff, graph);
    if eff.nodes.len() > 0 {
        assert(all[0].table is Nodes);
        if eff.edges.len() > 0 {
            assert(all[1].table is Edges);
        }
    } else if eff.edges.len() > 0 {
        assert(all[0].table is Edges);
    }
}

} // verus!
