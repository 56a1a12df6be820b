//! `INSERT`, with or without a `MATCH`.
//!
//! An insertion is resolved in two steps. The first walks the patterns and
//! lists the elements to create, each with the value of its `_id`. The
//! embedding program derives an identifier from each of these values. The
//! second step turns the elements into events.

use crate::ast::{Direction, Expr, Hop, InsertStmt, LabelSpec, NodePattern, PathPattern};
use crate::bindings::{opt_text, BindingKind, Kinds, Row};
use crate::const_eval::{const_doc, props_doc, props_negatable, Params};
use crate::delete::rows_wf;
use crate::doc::{Doc, DocView};
use crate::effects::{sat, Effects, EffectsView};
use crate::error::{EngineError, ErrorView};
use crate::event::{Event, EventView, Op, OpView};
use crate::fold::{
    fold, lemma_fold_all, lemma_fold_step, lemma_try_fold_all, lemma_try_fold_fails,
    lemma_try_fold_step, try_fold,
};
use crate::sorted::{lemma_sorted_domain, SortedMap};
use crate::state::TableKind;
use crate::text::{
    clone_texts, concat3, concat4, decimal, decimal_text, lemma_views_push, views,
};
use crate::types::{Iid, Instant, Value, ValueView};
use vstd::prelude::*;

verus! {

/// An element that an insertion refers to: one that exists, or the one that
/// the insertion creates at this place of its list.
#[derive(Clone, Copy, Debug, PartialEq, Eq, Structural)]
pub enum NodeRef {
    Known(Iid),
    Fresh(usize),
}

/// The value from which the identifier of a new element is derived.
#[derive(Debug)]
pub struct IdRequest {
    pub table: TableKind,
    pub id: Value,
}

pub struct IdRequestView {
    pub table: TableKind,
    pub id: ValueView,
}

impl View for IdRequest {
    type V = IdRequestView;

    open spec fn view(&self) -> IdRequestView {
        IdRequestView { table: self.table, id: self.id@ }
    }
}

/// An element to create.
#[derive(Debug)]
pub enum Draft {
    Node { labels: Vec<String>, doc: Doc },
    Edge { label: String, doc: Doc, src: NodeRef, dst: NodeRef },
}

pub enum DraftView {
    Node { labels: Seq<Seq<char>>, doc: DocView },
    Edge { label: Seq<char>, doc: DocView, src: NodeRef, dst: NodeRef },
}

impl View for Draft {
    type V = DraftView;

    open spec fn view(&self) -> DraftView {
        match self {
            Draft::Node { labels, doc } => DraftView::Node { labels: views(labels@), doc: doc@ },
            Draft::Edge { label, doc, src, dst } => DraftView::Edge {
                label: label@,
                doc: doc@,
                src: *src,
                dst: *dst,
            },
        }
    }
}

impl Draft {
    pub open spec fn wf(&self) -> bool {
        match self {
            Draft::Node { doc, .. } => doc.wf(),
            Draft::Edge { doc, .. } => doc.wf(),
        }
    }
}

/// A reference to an element at a place below `n`, or to an existing one.
pub open spec fn ref_below(r: NodeRef, n: int) -> bool {
    r matches NodeRef::Fresh(i) ==> i < n
}

/// The ends of a drafted edge come before place `n`.
pub open spec fn draft_below(d: DraftView, n: int) -> bool {
    d matches DraftView::Edge { src, dst, .. } ==> ref_below(src, n) && ref_below(dst, n)
}

/// The document's `_id`, or the one generated for this place of this
/// transaction, which is then put into the document.
pub open spec fn put_id_spec(doc: DocView, tx_id: u64, ordinal: nat) -> (DocView, ValueView) {
    if doc.dom().contains("_id"@) {
        (doc, doc["_id"@])
    } else {
        let id = ValueView::Str("varve:gen:"@ + decimal(tx_id as nat) + ":"@ + decimal(ordinal));
        (doc.insert("_id"@, id), id)
    }
}

/// The document's `_id`, generated and put into the document where it has
/// none.
pub fn put_id(doc: &mut Doc, tx_id: u64, ordinal: u64) -> (r: Value)
    requires
        old(doc).wf(),
    ensures
        final(doc).wf(),
        put_id_spec(old(doc)@, tx_id, ordinal as nat) == (final(doc)@, r@),
{
    match doc.get("_id") {
        Some(v) => v.clone_value(),
        None => {
            let text = concat4(
                "varve:gen:",
                decimal_text(tx_id).as_str(),
                ":",
                decimal_text(ordinal).as_str(),
            );
            let v = Value::Str(text);
            let kept = v.clone_value();
            doc.insert("_id".to_owned(), kept);
            v
        },
    }
}

pub open spec fn stored_labels_spec(labels: LabelSpec) -> Result<Seq<Seq<char>>, ErrorView> {
    match labels {
        LabelSpec::All(l) => Ok(views(l@)),
        LabelSpec::Any(_) => Err(
            ErrorView::Unsupported("label alternation is not supported when writing labels"@),
        ),
    }
}

/// The labels to write: a list of all, never a choice.
pub fn stored_labels(labels: &LabelSpec) -> (r: Result<Vec<String>, EngineError>)
    ensures
        match r {
            Ok(l) => stored_labels_spec(*labels) == Ok::<Seq<Seq<char>>, ErrorView>(views(l@)),
            Err(e) => stored_labels_spec(*labels) == Err::<Seq<Seq<char>>, ErrorView>(e@),
        },
{
    match labels {
        LabelSpec::All(l) => Ok(clone_texts(l)),
        LabelSpec::Any(_) => Err(
            EngineError::Unsupported(
                "label alternation is not supported when writing labels".to_owned(),
            ),
        ),
    }
}

/// Where an insertion stands: the variables bound in the row at hand, and the
/// elements drafted so far.
#[verifier::ext_equal]
pub struct Walk {
    pub bound: Map<Seq<char>, NodeRef>,
    pub kinds: Map<Seq<char>, BindingKind>,
    pub ids: Seq<IdRequestView>,
    pub drafts: Seq<DraftView>,
}

/// Why an insertion stopped, and the identifiers it had asked for by then.
pub struct Stop {
    pub ids: Seq<IdRequestView>,
    pub error: ErrorView,
}

/// What all steps of an insertion share.
pub struct InsertContext {
    pub params: Map<Seq<char>, ValueView>,
    pub tx_id: u64,
    pub base: nat,
}

/// A walk and the node that it has reached.
pub struct Reached {
    pub walk: Walk,
    pub node: NodeRef,
}

/// A node element: a bare reference to a bound variable, or a new node.
pub open spec fn walk_node(w: Walk, n: NodePattern, cx: InsertContext) -> Result<Reached, Stop> {
    let var = opt_text(n.var);
    let bare = n.labels.empty_spec() && n.props@.len() == 0;
    if var is Some && w.bound.dom().contains(var->0) {
        let v = var->0;
        if !w.kinds.dom().contains(v) {
            Err(
                Stop {
                    ids: w.ids,
                    error: ErrorView::Unsupported(
                        "INSERT node variable '"@ + v + "' has no binding kind"@,
                    ),
                },
            )
        } else if w.kinds[v] == BindingKind::Edge {
            Err(
                Stop {
                    ids: w.ids,
                    error: ErrorView::Unsupported(
                        "INSERT node position bound to edge variable '"@ + v + "'"@,
                    ),
                },
            )
        } else if !bare {
            Err(Stop { ids: w.ids, error: ErrorView::AlreadyBoundVariable(v) })
        } else {
            Ok(Reached { walk: w, node: w.bound[v] })
        }
    } else if var is Some && bare {
        Err(Stop { ids: w.ids, error: ErrorView::UnboundVariable(var->0) })
    } else {
        match props_doc(n.props@, cx.params) {
            Err(e) => Err(Stop { ids: w.ids, error: e }),
            Ok(doc0) => {
                let place = w.ids.len();
                let (doc, id) = put_id_spec(doc0, cx.tx_id, cx.base + place);
                let ids = w.ids.push(IdRequestView { table: TableKind::Nodes, id });
                match stored_labels_spec(n.labels) {
                    Err(e) => Err(Stop { ids, error: e }),
                    Ok(labels) => {
                        let node = NodeRef::Fresh(place as usize);
                        let drafts = w.drafts.push(DraftView::Node { labels, doc });
                        Ok(
                            Reached {
                                walk: match var {
                                    Some(v) => Walk {
                                        bound: w.bound.insert(v, node),
                                        kinds: w.kinds.insert(v, BindingKind::Node),
                                        ids,
                                        drafts,
                                    },
                                    None => Walk { bound: w.bound, kinds: w.kinds, ids, drafts },
                                },
                                node,
                            },
                        )
                    },
                }
            },
        }
    }
}

/// One hop: its node, then its edge from or to the node before.
pub open spec fn walk_hop(from: Reached, h: Hop, cx: InsertContext) -> Result<Reached, Stop> {
    match walk_node(from.walk, h.node, cx) {
        Err(s) => Err(s),
        Ok(next) => match props_doc(h.edge.props@, cx.params) {
            Err(e) => Err(Stop { ids: next.walk.ids, error: e }),
            Ok(doc0) => {
                let place = next.walk.ids.len();
                let (doc, id) = put_id_spec(doc0, cx.tx_id, cx.base + place);
                let (src, dst) = match h.edge.direction {
                    Direction::Out => (from.node, next.node),
                    Direction::In => (next.node, from.node),
                };
                Ok(
                    Reached {
                        walk: Walk {
                            ids: next.walk.ids.push(
                                IdRequestView { table: TableKind::Edges, id },
                            ),
                            drafts: next.walk.drafts.push(
                                DraftView::Edge { label: h.edge.label@, doc, src, dst },
                            ),
                            ..next.walk
                        },
                        node: next.node,
                    },
                )
            },
        },
    }
}

/// One path: its start, then its hops.
pub open spec fn walk_path(w: Walk, p: PathPattern, cx: InsertContext) -> Result<Walk, Stop> {
    match walk_node(w, p.start, cx) {
        Err(s) => Err(s),
        Ok(start) => match try_fold(
            p.hops@,
            start,
            |at: Reached, h: Hop| walk_hop(at, h, cx),
        ) {
            Err(s) => Err(s),
            Ok(end) => Ok(end.walk),
        },
    }
}

/// One row: all paths, with the row's variables bound.
pub open spec fn walk_row(
    w: Walk,
    row: Map<Seq<char>, Iid>,
    kinds: Map<Seq<char>, BindingKind>,
    paths: Seq<PathPattern>,
    cx: InsertContext,
) -> Result<Walk, Stop> {
    try_fold(
        paths,
        Walk {
            bound: row.map_values(|i: Iid| NodeRef::Known(i)),
            kinds,
            ids: w.ids,
            drafts: w.drafts,
        },
        |w: Walk, p: PathPattern| walk_path(w, p, cx),
    )
}

/// Before anything is drafted.
pub open spec fn fresh_walk() -> Walk {
    Walk { bound: Map::empty(), kinds: Map::empty(), ids: Seq::empty(), drafts: Seq::empty() }
}

/// The elements that an insertion drafts: those of each matched row in turn,
/// or of one empty row where the statement has no `MATCH`.
pub open spec fn insert_walk(
    stmt: InsertStmt,
    rows: Seq<Map<Seq<char>, Iid>>,
    kinds: Map<Seq<char>, BindingKind>,
    cx: InsertContext,
) -> Result<Walk, Stop> {
    if stmt.match_part is None {
        walk_row(fresh_walk(), Map::empty(), Map::empty(), stmt.paths@, cx)
    } else {
        try_fold(
            rows,
            fresh_walk(),
            |w: Walk, row: Map<Seq<char>, Iid>| walk_row(w, row, kinds, stmt.paths@, cx),
        )
    }
}

/// The drafted elements, or the failure that stopped the walk, with the
/// identifiers asked for by then.
pub struct InsertPlan {
    pub ids: Vec<IdRequest>,
    pub outcome: Result<Vec<Draft>, EngineError>,
}

/// Every draft is well formed and refers only to drafts before it.
pub open spec fn drafts_wf(drafts: Seq<Draft>) -> bool {
    forall|i: int|
        0 <= i < drafts.len() ==> (#[trigger] drafts[i]).wf() && draft_below(drafts[i]@, i)
}

impl InsertPlan {
    pub open spec fn wf(&self) -> bool {
        self.outcome matches Ok(drafts) ==> drafts@.len() == self.ids@.len() && drafts_wf(drafts@)
    }
}

struct Cursor {
    bound: SortedMap<String, NodeRef>,
    kinds: Kinds,
    ids: Vec<IdRequest>,
    drafts: Vec<Draft>,
}

impl Cursor {
    spec fn walk(&self) -> Walk {
        Walk {
            bound: self.bound@,
            kinds: self.kinds@,
            ids: views(self.ids@),
            drafts: views(self.drafts@),
        }
    }

    spec fn wf(&self) -> bool {
        &&& self.bound.wf()
        &&& self.kinds.wf()
        &&& self.drafts@.len() == self.ids@.len()
        &&& drafts_wf(self.drafts@)
        &&& forall|v: Seq<char>| #[trigger]
            self.bound@.dom().contains(v) ==> ref_below(self.bound@[v], self.ids@.len() as int)
    }
}

fn copy_map<V: Copy>(m: &SortedMap<String, V>) -> (r: SortedMap<String, V>)
    requires
        m.wf(),
    ensures
        r.wf(),
        r@ == m@,
{
    let n = m.len();
    let mut r: SortedMap<String, V> = SortedMap::new();
    let ghost keys = m.keys();
    let mut i: usize = 0;
    proof {
        lemma_sorted_domain(*m);
    }
    while i < n
        invariant
            i <= n,
            n == keys.len(),
            keys == m.keys(),
            r.wf(),
            m@.dom() == keys.to_set(),
            forall|k: int|
                0 <= k < keys.len() ==> m@.dom().contains(#[trigger] keys[k]) && m@[keys[k]]
                    == m.values()[k],
            forall|k: Seq<char>| #[trigger]
                r@.dom().contains(k) ==> m@.dom().contains(k) && r@[k] == m@[k],
            forall|k: int| 0 <= k < i ==> r@.dom().contains(#[trigger] keys[k]),
        decreases n - i,
    {
        r.insert(m.key_at(i).clone(), *m.value_at(i));
        i += 1;
    }
    assert(r@ =~= m@) by {
        assert forall|k: Seq<char>| m@.dom().contains(k) implies r@.dom().contains(k) by {
            let j = keys.index_of(k);
            assert(keys[j] == k);
        }
    }
    r
}

fn known_refs(m: &Row) -> (r: SortedMap<String, NodeRef>)
    requires
        m.wf(),
    ensures
        r.wf(),
        r@ == m@.map_values(|i: Iid| NodeRef::Known(i)),
{
    let n = m.len();
    let mut r: SortedMap<String, NodeRef> = SortedMap::new();
    let ghost keys = m.keys();
    let mut i: usize = 0;
    proof {
        lemma_sorted_domain(*m);
    }
    while i < n
        invariant
            i <= n,
            n == keys.len(),
            keys == m.keys(),
            r.wf(),
            m@.dom() == keys.to_set(),
            forall|k: int|
                0 <= k < keys.len() ==> m@.dom().contains(#[trigger] keys[k]) && m@[keys[k]]
                    == m.values()[k],
            forall|k: Seq<char>| #[trigger]
                r@.dom().contains(k) ==> m@.dom().contains(k) && r@[k] == NodeRef::Known(m@[k]),
            forall|k: int| 0 <= k < i ==> r@.dom().contains(#[trigger] keys[k]),
        decreases n - i,
    {
        r.insert(m.key_at(i).clone(), NodeRef::Known(*m.value_at(i)));
        i += 1;
    }
    assert(r@ =~= m@.map_values(|i: Iid| NodeRef::Known(i))) by {
        assert forall|k: Seq<char>| m@.dom().contains(k) implies r@.dom().contains(k) by {
            let j = keys.index_of(k);
            assert(keys[j] == k);
        }
    }
    r
}

/// A transaction numbers its new elements with numbers that fit.
pub open spec fn ordinals_fit(base: u64, count: int) -> bool {
    base + count <= u64::MAX
}

fn draft_doc(
    props: &Vec<(String, Expr)>,
    params: &Params,
    tx_id: u64,
    base: u64,
    place: usize,
) -> (r: Result<(Doc, Value), EngineError>)
    requires
        params.wf(),
        props_negatable(props@),
        ordinals_fit(base, place as int),
    ensures
        match r {
            Ok((doc, id)) => doc.wf() && props_doc(props@, params@) is Ok && (doc@, id@)
                == put_id_spec(
                props_doc(props@, params@)->Ok_0,
                tx_id,
                (base + place) as nat,
            ),
            Err(e) => props_doc(props@, params@) == Err::<DocView, ErrorView>(e@),
        },
{
    match const_doc(props, params) {
        Err(e) => Err(e),
        Ok(doc) => {
            let mut doc = doc;
            let id = put_id(&mut doc, tx_id, base + place as u64);
            Ok((doc, id))
        },
    }
}

/// Resolves a node element of an `INSERT`.
fn resolve_insert_node(
    cur: &mut Cursor,
    node: &NodePattern,
    params: &Params,
    tx_id: u64,
    base: u64,
) -> (r: Result<NodeRef, EngineError>)
    requires
        old(cur).wf(),
        params.wf(),
        props_negatable(node.props@),
        ordinals_fit(base, old(cur).ids@.len() as int),
    ensures
        ({
            let cx = InsertContext { params: params@, tx_id, base: base as nat };
            match r {
                Ok(reached) => {
                    &&& final(cur).wf()
                    &&& ref_below(reached, final(cur).ids@.len() as int)
                    &&& walk_node(old(cur).walk(), *node, cx) == Ok::<Reached, Stop>(
                        Reached { walk: final(cur).walk(), node: reached },
                    )
                    &&& old(cur).ids@.len() <= final(cur).ids@.len() <= old(cur).ids@.len() + 1
                },
                Err(e) => walk_node(old(cur).walk(), *node, cx) == Err::<Reached, Stop>(
                    Stop { ids: views(final(cur).ids@), error: e@ },
                ),
            }
        }),
{
    let bare = node.labels.is_empty() && node.props.len() == 0;
    match &node.var {
        Some(var) => {
            match cur.bound.get(var) {
                Some(found) => {
                    let found = *found;
                    return match cur.kinds.get(var) {
                        Some(BindingKind::Node) => if !bare {
                            Err(EngineError::AlreadyBoundVariable(var.clone()))
                        } else {
                            Ok(found)
                        },
                        Some(BindingKind::Edge) => Err(
                            EngineError::Unsupported(
                                concat3(
                                    "INSERT node position bound to edge variable '",
                                    var.as_str(),
                                    "'",
                                ),
                            ),
                        ),
                        None => Err(
                            EngineError::Unsupported(
                                concat3(
                                    "INSERT node variable '",
                                    var.as_str(),
                                    "' has no binding kind",
                                ),
                            ),
                        ),
                    };
                },
                None => {},
            }
            if bare {
                return Err(EngineError::UnboundVariable(var.clone()));
            }
        },
        None => {},
    }
    let place: usize = cur.ids.len();
    let (doc, id) = match draft_doc(&node.props, params, tx_id, base, place) {
        Ok(pair) => pair,
        Err(e) => {
            return Err(e);
        },
    };
    let ghost cur0 = cur.walk();
    let request = IdRequest { table: TableKind::Nodes, id };
    proof {
        lemma_views_push(cur.ids@, request);
    }
    cur.ids.push(request);
    let labels = match stored_labels(&node.labels) {
        Ok(labels) => labels,
        Err(e) => {
            return Err(e);
        },
    };
    let draft = Draft::Node { labels, doc };
    proof {
        lemma_views_push(cur.drafts@, draft);
    }
    cur.drafts.push(draft);
    match &node.var {
        Some(var) => {
            cur.bound.insert(var.clone(), NodeRef::Fresh(place));
            cur.kinds.insert(var.clone(), BindingKind::Node);
        },
        None => {},
    }
    Ok(NodeRef::Fresh(place))
}

/// The number of elements that patterns can create.
pub open spec fn path_elements(p: PathPattern) -> int {
    1 + 2 * p.hops@.len() as int
}

pub open spec fn paths_elements(paths: Seq<PathPattern>) -> int
    decreases paths.len(),
{
    if paths.len() == 0 {
        0
    } else {
        paths_elements(paths.drop_last()) + path_elements(paths.last())
    }
}

/// All property expressions of the patterns can be evaluated.
pub open spec fn path_negatable(p: PathPattern) -> bool {
    &&& props_negatable(p.start.props@)
    &&& forall|i: int|
        0 <= i < p.hops@.len() ==> props_negatable((#[trigger] p.hops@[i]).edge.props@)
            && props_negatable(p.hops@[i].node.props@)
}

pub open spec fn paths_negatable(paths: Seq<PathPattern>) -> bool {
    forall|i: int| 0 <= i < paths.len() ==> path_negatable(#[trigger] paths[i])
}

fn resolve_path(
    cur: &mut Cursor,
    path: &PathPattern,
    params: &Params,
    tx_id: u64,
    base: u64,
) -> (r: Result<(), EngineError>)
    requires
        old(cur).wf(),
        params.wf(),
        path_negatable(*path),
        ordinals_fit(base, old(cur).ids@.len() + path_elements(*path)),
    ensures
        ({
            let cx = InsertContext { params: params@, tx_id, base: base as nat };
            match r {
                Ok(()) => {
                    &&& final(cur).wf()
                    &&& walk_path(old(cur).walk(), *path, cx) == Ok::<Walk, Stop>(
                        final(cur).walk(),
                    )
                    &&& final(cur).ids@.len() <= old(cur).ids@.len() + path_elements(*path)
                },
                Err(e) => walk_path(old(cur).walk(), *path, cx) == Err::<Walk, Stop>(
                    Stop { ids: views(final(cur).ids@), error: e@ },
                ),
            }
        }),
{
    let ghost cx = InsertContext { params: params@, tx_id, base: base as nat };
    let ghost step = |at: Reached, h: Hop| walk_hop(at, h, cx);
    let ghost ids0 = cur.ids@.len();
    let mut prev = match resolve_insert_node(cur, &path.start, params, tx_id, base) {
        Ok(n) => n,
        Err(e) => {
            return Err(e);
        },
    };
    let ghost start = Reached { walk: cur.walk(), node: prev };
    let mut i: usize = 0;
    proof {
        lemma_try_fold_all(path.hops@, start, step);
    }
    while i < path.hops.len()
        invariant
            i <= path.hops.len(),
            cur.wf(),
            params.wf(),
            path_negatable(*path),
            ordinals_fit(base, ids0 + path_elements(*path)),
            cur.ids@.len() <= ids0 + 1 + 2 * i,
            ref_below(prev, cur.ids@.len() as int),
            cx == (InsertContext { params: params@, tx_id, base: base as nat }),
            step == (|at: Reached, h: Hop| walk_hop(at, h, cx)),
            walk_node(old(cur).walk(), path.start, cx) == Ok::<Reached, Stop>(start),
            try_fold(path.hops@.subrange(0, i as int), start, step) == Ok::<Reached, Stop>(
                Reached { walk: cur.walk(), node: prev },
            ),
        decreases path.hops.len() - i,
    {
        let hop = &path.hops[i];
        let ghost at = Reached { walk: cur.walk(), node: prev };
        proof {
            lemma_try_fold_step(path.hops@, start, step, i as int);
            if try_fold(path.hops@.subrange(0, i + 1), start, step) is Err {
                lemma_try_fold_fails(path.hops@, start, step, i + 1);
            }
            assert(path.hops@[i as int] == *hop);
        }
        let next = match resolve_insert_node(cur, &hop.node, params, tx_id, base) {
            Ok(n) => n,
            Err(e) => {
                return Err(e);
            },
        };
        let place: usize = cur.ids.len();
        let (doc, id) = match draft_doc(&hop.edge.props, params, tx_id, base, place) {
            Ok(pair) => pair,
            Err(e) => {
                return Err(e);
            },
        };
        let (src, dst) = match hop.edge.direction {
            Direction::Out => (prev, next),
            Direction::In => (next, prev),
        };
        let request = IdRequest { table: TableKind::Edges, id };
        let draft = Draft::Edge { label: hop.edge.label.clone(), doc, src, dst };
        proof {
            lemma_views_push(cur.ids@, request);
            lemma_views_push(cur.drafts@, draft);
        }
        cur.ids.push(request);
        cur.drafts.push(draft);
        prev = next;
        i += 1;
    }
    proof {
        lemma_try_fold_all(path.hops@, start, step);
    }
    Ok(())
}

proof fn lemma_paths_elements_prefix(paths: Seq<PathPattern>, i: int)
    requires
        0 <= i < paths.len(),
    ensures
        paths_elements(paths.subrange(0, i + 1)) == paths_elements(paths.subrange(0, i))
            + path_elements(paths[i]),
        paths_elements(paths.subrange(0, i + 1)) <= paths_elements(paths),
        0 <= paths_elements(paths.subrange(0, i)),
    decreases paths.len(),
{
    let longer = paths.subrange(0, i + 1);
    assert(longer.drop_last() =~= paths.subrange(0, i));
    lemma_paths_elements_nonneg(paths.subrange(0, i));
    if i + 1 == paths.len() {
        assert(longer =~= paths);
    } else {
        let shorter = paths.drop_last();
        assert(shorter.subrange(0, i + 1) =~= longer);
        assert(shorter.subrange(0, i) =~= paths.subrange(0, i));
        lemma_paths_elements_prefix(shorter, i);
    }
}

proof fn lemma_paths_elements_nonneg(paths: Seq<PathPattern>)
    ensures
        0 <= paths_elements(paths),
    decreases paths.len(),
{
    if paths.len() > 0 {
        lemma_paths_elements_nonneg(paths.drop_last());
    }
}

fn resolve_row(
    ids: Vec<IdRequest>,
    drafts: Vec<Draft>,
    row: &Row,
    kinds: &Kinds,
    paths: &Vec<PathPattern>,
    params: &Params,
    tx_id: u64,
    base: u64,
) -> (r: (Vec<IdRequest>, Result<Vec<Draft>, EngineError>))
    requires
        ids@.len() == drafts@.len(),
        drafts_wf(drafts@),
        row.wf(),
        kinds.wf(),
        params.wf(),
        paths_negatable(paths@),
        ordinals_fit(base, ids@.len() + paths_elements(paths@)),
    ensures
        ({
            let cx = InsertContext { params: params@, tx_id, base: base as nat };
            let w = Walk {
                bound: Map::empty(),
                kinds: Map::empty(),
                ids: views(ids@),
                drafts: views(drafts@),
            };
            let walked = walk_row(w, row@, kinds@, paths@, cx);
            match r.1 {
                Ok(d) => {
                    &&& walked is Ok
                    &&& walked->Ok_0.ids == views(r.0@)
                    &&& walked->Ok_0.drafts == views(d@)
                    &&& d@.len() == r.0@.len()
                    &&& drafts_wf(d@)
                    &&& r.0@.len() <= ids@.len() + paths_elements(paths@)
                },
                Err(e) => walked == Err::<Walk, Stop>(Stop { ids: views(r.0@), error: e@ }),
            }
        }),
{
    let ghost cx = InsertContext { params: params@, tx_id, base: base as nat };
    let ghost step = |w: Walk, p: PathPattern| walk_path(w, p, cx);
    let ghost ids0 = ids@.len();
    let ghost given = (views(ids@), views(drafts@));
    let mut cur = Cursor { bound: known_refs(row), kinds: copy_map(kinds), ids, drafts };
    let ghost start = cur.walk();
    let mut i: usize = 0;
    proof {
        lemma_try_fold_all(paths@, start, step);
        assert(paths@.subrange(0, 0) =~= Seq::empty());
    }
    while i < paths.len()
        invariant
            i <= paths.len(),
            cur.wf(),
            params.wf(),
            paths_negatable(paths@),
            ordinals_fit(base, ids0 + paths_elements(paths@)),
            cur.ids@.len() <= ids0 + paths_elements(paths@.subrange(0, i as int)),
            cx == (InsertContext { params: params@, tx_id, base: base as nat }),
            step == (|w: Walk, p: PathPattern| walk_path(w, p, cx)),
            given == (views(ids@), views(drafts@)),
            start == (Walk {
                bound: row@.map_values(|i: Iid| NodeRef::Known(i)),
                kinds: kinds@,
                ids: given.0,
                drafts: given.1,
            }),
            try_fold(paths@.subrange(0, i as int), start, step) == Ok::<Walk, Stop>(cur.walk()),
        decreases paths.len() - i,
    {
        proof {
            lemma_paths_elements_prefix(paths@, i as int);
            lemma_try_fold_step(paths@, start, step, i as int);
            if try_fold(paths@.subrange(0, i + 1), start, step) is Err {
                lemma_try_fold_fails(paths@, start, step, i + 1);
            }
        }
        match resolve_path(&mut cur, &paths[i], params, tx_id, base) {
            Ok(()) => {},
            Err(e) => {
                return (cur.ids, Err(e));
            },
        }
        i += 1;
    }
    proof {
        lemma_try_fold_all(paths@, start, step);
        assert(paths@.subrange(0, i as int) =~= paths@);
    }
    (cur.ids, Ok(cur.drafts))
}

/// The elements drafted so far fit the numbering, whatever rows are left.
pub open spec fn insert_fits(stmt: InsertStmt, rows: int, base: u64) -> bool {
    ordinals_fit(base, paths_elements(stmt.paths@)) && ordinals_fit(
        base,
        rows * paths_elements(stmt.paths@),
    )
}

/// The first step of an insertion: the elements to create and the values their
/// identifiers are derived from. `rows` and `kinds` are what the statement's
/// `MATCH` bound; `base` is the number of elements that the transaction's
/// statements created before.
pub fn plan_insert(
    stmt: &InsertStmt,
    rows: &Vec<Row>,
    kinds: &Kinds,
    params: &Params,
    tx_id: u64,
    base: u64,
) -> (r: InsertPlan)
    requires
        rows_wf(rows@),
        kinds.wf(),
        params.wf(),
        paths_negatable(stmt.paths@),
        insert_fits(*stmt, rows@.len() as int, base),
    ensures
        r.wf(),
        ({
            let cx = InsertContext { params: params@, tx_id, base: base as nat };
            let walked = insert_walk(*stmt, views(rows@), kinds@, cx);
            match r.outcome {
                Ok(drafts) => walked is Ok && walked->Ok_0.ids == views(r.ids@)
                    && walked->Ok_0.drafts == views(drafts@),
                Err(e) => walked == Err::<Walk, Stop>(Stop { ids: views(r.ids@), error: e@ }),
            }
        }),
{
    let ghost cx = InsertContext { params: params@, tx_id, base: base as nat };
    let mut ids: Vec<IdRequest> = Vec::new();
    let mut drafts: Vec<Draft> = Vec::new();
    proof {
        assert(views(ids@) =~= Seq::empty());
        assert(views(drafts@) =~= Seq::empty());
    }
    if stmt.match_part.is_none() {
        let row: Row = SortedMap::new();
        let none: Kinds = SortedMap::new();
        let (ids, outcome) = resolve_row(
            ids,
            drafts,
            &row,
            &none,
            &stmt.paths,
            params,
            tx_id,
            base,
        );
        return InsertPlan { ids, outcome };
    }
    let ghost all = views(rows@);
    let ghost step = |w: Walk, row: Map<Seq<char>, Iid>|
        walk_row(w, row, kinds@, stmt.paths@, cx);
    let ghost each = paths_elements(stmt.paths@);
    let ghost mut at = fresh_walk();
    let mut i: usize = 0;
    proof {
        lemma_try_fold_all(all, fresh_walk(), step);
        lemma_paths_elements_nonneg(stmt.paths@);
    }
    while i < rows.len()
        invariant
            i <= rows.len(),
            stmt.match_part is Some,
            rows_wf(rows@),
            kinds.wf(),
            params.wf(),
            paths_negatable(stmt.paths@),
            insert_fits(*stmt, rows@.len() as int, base),
            each == paths_elements(stmt.paths@),
            0 <= each,
            all == views(rows@),
            cx == (InsertContext { params: params@, tx_id, base: base as nat }),
            step == (|w: Walk, row: Map<Seq<char>, Iid>|
                walk_row(w, row, kinds@, stmt.paths@, cx)),
            ids@.len() == drafts@.len(),
            drafts_wf(drafts@),
            ids@.len() <= i * each,
            at.ids == views(ids@),
            at.drafts == views(drafts@),
            try_fold(all.subrange(0, i as int), fresh_walk(), step) == Ok::<Walk, Stop>(at),
        decreases rows.len() - i,
    {
        proof {
            lemma_try_fold_step(all, fresh_walk(), step, i as int);
            if try_fold(all.subrange(0, i + 1), fresh_walk(), step) is Err {
                lemma_try_fold_fails(all, fresh_walk(), step, i + 1);
            }
            assert(all[i as int] == rows@[i as int]@);
            assert((i + 1) * each == i * each + each) by (nonlinear_arith);
            assert((i + 1) * each <= rows@.len() * each) by (nonlinear_arith)
                requires
                    i + 1 <= rows@.len(),
                    0 <= each,
            ;
        }
        let (next_ids, outcome) = resolve_row(
            ids,
            drafts,
            &rows[i],
            kinds,
            &stmt.paths,
            params,
            tx_id,
            base,
        );
        match outcome {
            Err(e) => {
                return InsertPlan { ids: next_ids, outcome: Err(e) };
            },
            Ok(next_drafts) => {
                ids = next_ids;
                drafts = next_drafts;
                proof {
                    at = walk_row(at, all[i as int], kinds@, stmt.paths@, cx)->Ok_0;
                }
            },
        }
        i += 1;
    }
    proof {
        lemma_try_fold_all(all, fresh_walk(), step);
    }
    InsertPlan { ids, outcome: Ok(drafts) }
}

/// The identifier that a reference stands for.
pub open spec fn ref_iid(r: NodeRef, iids: Seq<Iid>) -> Iid {
    match r {
        NodeRef::Known(iid) => iid,
        NodeRef::Fresh(i) => iids[i as int],
    }
}

/// The time range in which new elements hold.
pub struct ValidRange {
    pub system: Instant,
    pub valid_from: Instant,
    pub valid_to: Instant,
}

/// The event that creates an element.
pub open spec fn put_event(
    iid: Iid,
    ends: Option<(Iid, Iid)>,
    labels: Seq<Seq<char>>,
    doc: DocView,
    range: ValidRange,
) -> EventView {
    EventView {
        iid,
        system_from: range.system,
        valid_from: range.valid_from,
        valid_to: range.valid_to,
        src: match ends {
            Some(e) => Some(e.0),
            None => None,
        },
        dst: match ends {
            Some(e) => Some(e.1),
            None => None,
        },
        op: OpView::Put { labels, doc },
    }
}

/// One drafted element is created.
pub open spec fn draft_created(
    eff: EffectsView,
    d: DraftView,
    iid: Iid,
    iids: Seq<Iid>,
    range: ValidRange,
) -> EffectsView {
    match d {
        DraftView::Node { labels, doc } => eff.node_created(labels, doc).push_node(
            put_event(iid, None, labels, doc, range),
        ),
        DraftView::Edge { label, doc, src, dst } => eff.edge_created(doc).push_edge(
            put_event(
                iid,
                Some((ref_iid(src, iids), ref_iid(dst, iids))),
                seq![label],
                doc,
                range,
            ),
        ),
    }
}

/// The drafted elements are created, in order.
pub open spec fn drafts_created(
    drafts: Seq<DraftView>,
    iids: Seq<Iid>,
    range: ValidRange,
) -> EffectsView {
    fold(
        Seq::new(drafts.len(), |i: int| i),
        EffectsView::empty(),
        |eff: EffectsView, i: int| draft_created(eff, drafts[i], iids[i], iids, range),
    )
}

/// The first identifier that could not be derived.
pub open spec fn first_refused(derived: Seq<Result<Iid, String>>, i: int) -> Option<Seq<char>>
    decreases derived.len() - i,
{
    if i < 0 || i >= derived.len() {
        None
    } else {
        match derived[i] {
            Err(text) => Some(text@),
            Ok(_) => first_refused(derived, i + 1),
        }
    }
}

/// The identifiers of a list in which all were derived.
pub open spec fn derived_iids(derived: Seq<Result<Iid, String>>) -> Seq<Iid> {
    derived.map_values(|d: Result<Iid, String>| d->Ok_0)
}

fn known_iid(r: NodeRef, derived: &Vec<Result<Iid, String>>) -> (iid: Iid)
    requires
        ref_below(r, derived@.len() as int),
        forall|i: int| 0 <= i < derived@.len() ==> (#[trigger] derived@[i]) is Ok,
    ensures
        iid == ref_iid(r, derived_iids(derived@)),
{
    match r {
        NodeRef::Known(iid) => iid,
        NodeRef::Fresh(i) => match &derived[i] {
            Ok(iid) => *iid,
            Err(_) => {
                assert(false);
                Iid { bits: 0 }
            },
        },
    }
}

pub fn check_derived(derived: &Vec<Result<Iid, String>>) -> (r: Option<String>)
    ensures
        match r {
            Some(text) => first_refused(derived@, 0) == Some(text@),
            None => first_refused(derived@, 0) is None && forall|i: int|
                0 <= i < derived@.len() ==> (#[trigger] derived@[i]) is Ok,
        },
{
    let mut i: usize = 0;
    while i < derived.len()
        invariant
            i <= derived.len(),
            first_refused(derived@, 0) == first_refused(derived@, i as int),
            forall|k: int| 0 <= k < i ==> (#[trigger] derived@[k]) is Ok,
        decreases derived.len() - i,
    {
        match &derived[i] {
            Err(text) => {
                return Some(text.clone());
            },
            Ok(_) => {},
        }
        i += 1;
    }
    None
}

/// The second step of an insertion: the events that create the planned
/// elements, given the identifier derived for each (or the text of the
/// failure to derive it).
pub fn resolve_insert(
    plan: InsertPlan,
    derived: &Vec<Result<Iid, String>>,
    system: Instant,
    valid_from: Instant,
    valid_to: Instant,
) -> (r: Result<Effects, EngineError>)
    requires
        plan.wf(),
        derived@.len() == plan.ids@.len(),
    ensures
        ({
            let range = ValidRange { system, valid_from, valid_to };
            match r {
                Ok(eff) => eff.wf() && plan.outcome is Ok && first_refused(derived@, 0) is None
                    && eff@ == drafts_created(
                    views(plan.outcome->Ok_0@),
                    derived_iids(derived@),
                    range,
                ),
                Err(e) => match first_refused(derived@, 0) {
                    Some(text) => e@ == ErrorView::Type(text),
                    None => plan.outcome is Err && e == plan.outcome->Err_0,
                },
            }
        }),
        r matches Ok(eff) ==> {
            &&& forall|k: int|
                0 <= k < eff.nodes@.len() ==> {
                    &&& (#[trigger] eff.nodes@[k]).valid_from == valid_from
                    &&& eff.nodes@[k].valid_to == valid_to
                    &&& eff.nodes@[k].system_from == system
                }
            &&& forall|k: int|
                0 <= k < eff.edges@.len() ==> {
                    &&& (#[trigger] eff.edges@[k]).valid_from == valid_from
                    &&& eff.edges@[k].valid_to == valid_to
                    &&& eff.edges@[k].system_from == system
                }
        },
{
    match check_derived(derived) {
        Some(text) => {
            return Err(EngineError::Type(text));
        },
        None => {},
    }
    let ghost range = ValidRange { system, valid_from, valid_to };
    let drafts = match plan.outcome {
        Ok(drafts) => drafts,
        Err(e) => {
            return Err(e);
        },
    };
    let ghost iids = derived_iids(derived@);
    let ghost all = views(drafts@);
    let ghost places = Seq::new(all.len(), |i: int| i);
    let ghost step = |eff: EffectsView, i: int| draft_created(eff, all[i], iids[i], iids, range);
    let mut effects = Effects::new();
    let mut i: usize = 0;
    proof {
        lemma_fold_all(places, EffectsView::empty(), step);
    }
    while i < drafts.len()
        invariant
            i <= drafts.len(),
            drafts@.len() == derived@.len(),
            drafts_wf(drafts@),
            forall|k: int| 0 <= k < derived@.len() ==> (#[trigger] derived@[k]) is Ok,
            iids == derived_iids(derived@),
            all == views(drafts@),
            places == Seq::new(all.len(), |i: int| i),
            range == (ValidRange { system, valid_from, valid_to }),
            step == (|eff: EffectsView, i: int|
                draft_created(eff, all[i], iids[i], iids, range)),
            effects.wf(),
            effects@ == fold(places.subrange(0, i as int), EffectsView::empty(), step),
        decreases drafts.len() - i,
    {
        proof {
            lemma_fold_step(places, EffectsView::empty(), step, i as int);
            assert(all[i as int] == drafts@[i as int]@);
        }
        let iid = known_iid(NodeRef::Fresh(i), derived);
        match &drafts[i] {
            Draft::Node { labels, doc } => {
                effects.record_node_create(labels, doc);
                effects.push_node(
                    Event {
                        iid,
                        system_from: system,
                        valid_from,
                        valid_to,
                        src: None,
                        dst: None,
                        op: Op::Put { labels: clone_texts(labels), doc: doc.clone_doc() },
                    },
                );
            },
            Draft::Edge { label, doc, src, dst } => {
                effects.record_edge_create(doc);
                let mut labels: Vec<String> = Vec::new();
                labels.push(label.clone());
                assert(views(labels@) =~= seq![label@]);
                effects.push_edge(
                    Event {
                        iid,
                        system_from: system,
                        valid_from,
                        valid_to,
                        src: Some(known_iid(*src, derived)),
                        dst: Some(known_iid(*dst, derived)),
                        op: Op::Put { labels, doc: doc.clone_doc() },
                    },
                );
            },
        }
        i += 1;
    }
    proof {
        lemma_fold_all(places, EffectsView::empty(), step);
        law_insertions_hold_for_the_given_time(all, iids, range);
        assert forall|k: int| 0 <= k < effects.nodes@.len() implies ({
            &&& (#[trigger] effects.nodes@[k]).valid_from == valid_from
            &&& effects.nodes@[k].valid_to == valid_to
            &&& effects.nodes@[k].system_from == system
        }) by {
            assert(effects@.nodes[k] == effects.nodes@[k]@);
        }
        assert forall|k: int| 0 <= k < effects.edges@.len() implies ({
            &&& (#[trigger] effects.edges@[k]).valid_from == valid_from
            &&& effects.edges@[k].valid_to == valid_to
            &&& effects.edges@[k].system_from == system
        }) by {
            assert(effects@.edges[k] == effects.edges@[k]@);
        }
    }
    Ok(effects)
}

/// The time range of an insertion: from the given start, or now, to the given
/// end, or without end. An empty range is refused.
pub fn insert_valid_range(stmt: &InsertStmt, system: Instant) -> (r: Result<
    (Instant, Instant),
    EngineError,
>)
    ensures
        ({
            let from = match stmt.valid_from {
                Some(t) => t,
                None => system,
            };
            let to = match stmt.valid_to {
                Some(t) => t,
                None => Instant::end_of_time(),
            };
            match r {
                Ok(range) => from.us < to.us && range == (from, to),
                Err(e) => from.us >= to.us && e@ == (ErrorView::InvalidValidRange { from, to }),
            }
        }),
{
    let from = match stmt.valid_from {
        Some(t) => t,
        None => system,
    };
    let to = match stmt.valid_to {
        Some(t) => t,
        None => Instant::end_of_time(),
    };
    if from.us >= to.us {
        return Err(EngineError::InvalidValidRange { from, to });
    }
    Ok((from, to))
}

/// The event creates an element with these labels and this document, for the
/// time that the statement says and from the time at which it is written.
pub open spec fn creates(
    e: EventView,
    iid: Iid,
    labels: Seq<Seq<char>>,
    doc: DocView,
    range: ValidRange,
) -> bool {
    &&& e.iid == iid
    &&& e.system_from == range.system
    &&& e.valid_from == range.valid_from
    &&& e.valid_to == range.valid_to
    &&& (e.op matches OpView::Put { labels: l, doc: d } && l == labels && d == doc)
}

/// The identifier that stands at one end of an edge to create.
pub open spec fn end_is(end: Option<Iid>, r: NodeRef, iids: Seq<Iid>) -> bool {
    match r {
        NodeRef::Known(iid) => end == Some(iid),
        NodeRef::Fresh(i) => end == Some(iids[i as int]),
    }
}

/// The event is that of the drafted node.
pub open spec fn is_node_of(
    e: EventView,
    d: DraftView,
    iid: Iid,
    range: ValidRange,
) -> bool {
    &&& e.src is None
    &&& e.dst is None
    &&& (d matches DraftView::Node { labels, doc } && creates(e, iid, labels, doc, range))
}

/// The event is that of the drafted edge.
pub open spec fn is_edge_of(
    e: EventView,
    d: DraftView,
    iid: Iid,
    iids: Seq<Iid>,
    range: ValidRange,
) -> bool {
    d matches DraftView::Edge { label, doc, src, dst } && creates(e, iid, seq![label], doc, range)
        && end_is(e.src, src, iids) && end_is(e.dst, dst, iids)
}

proof fn lemma_created(
    drafts: Seq<DraftView>,
    iids: Seq<Iid>,
    range: ValidRange,
    n: int,
) -> (places: (Seq<int>, Seq<int>))
    requires
        0 <= n <= drafts.len(),
    ensures
        ({
            let eff = fold(
                Seq::new(n as nat, |i: int| i),
                EffectsView::empty(),
                |eff: EffectsView, i: int| draft_created(eff, drafts[i], iids[i], iids, range),
            );
            let (ns, es) = places;
            &&& eff.nodes.len() == ns.len()
            &&& eff.edges.len() == es.len()
            &&& ns.len() + es.len() == n
            &&& eff.catalog_ops.len() == 0
            &&& eff.side_effects.nodes_deleted == 0
            &&& eff.side_effects.relationships_deleted == 0
            &&& eff.side_effects.nodes_created == sat(ns.len() as int)
            &&& eff.side_effects.relationships_created == sat(es.len() as int)
            &&& forall|k: int|
                0 <= k < ns.len() ==> 0 <= #[trigger] ns[k] < n && is_node_of(
                    eff.nodes[k],
                    drafts[ns[k]],
                    iids[ns[k]],
                    range,
                )
            &&& forall|k: int|
                0 <= k < es.len() ==> 0 <= #[trigger] es[k] < n && is_edge_of(
                    eff.edges[k],
                    drafts[es[k]],
                    iids[es[k]],
                    iids,
                    range,
                )
            &&& forall|a: int, b: int| 0 <= a < b < ns.len() ==> ns[a] < ns[b]
            &&& forall|a: int, b: int| 0 <= a < b < es.len() ==> es[a] < es[b]
            &&& forall|i: int|
                #![trigger drafts[i]]
                0 <= i < n ==> (drafts[i] is Node ==> ns.contains(i)) && (drafts[i] is Edge
                    ==> es.contains(i))
        }),
    decreases n,
{
    let step = |eff: EffectsView, i: int| draft_created(eff, drafts[i], iids[i], iids, range);
    let all = Seq::new(n as nat, |i: int| i);
    if n <= 0 {
        (Seq::empty(), Seq::empty())
    } else {
        let front = Seq::new((n - 1) as nat, |i: int| i);
        assert(all.drop_last() =~= front);
        let (ns, es) = lemma_created(drafts, iids, range, n - 1);
        let before = fold(front, EffectsView::empty(), step);
        let after = fold(all, EffectsView::empty(), step);
        assert(after == draft_created(before, drafts[n - 1], iids[n - 1], iids, range));
        match drafts[n - 1] {
            DraftView::Node { labels, doc } => {
                let more = ns.push(n - 1);
                assert(more[ns.len() as int] == n - 1);
                assert forall|i: int|
                    #![trigger drafts[i]]
                    0 <= i < n implies (drafts[i] is Node ==> more.contains(i)) && (
                drafts[i] is Edge ==> es.contains(i)) by {
                    if i < n - 1 && ns.contains(i) {
                        assert(more[ns.index_of(i)] == i);
                    }
                }
                (more, es)
            },
            DraftView::Edge { label, doc, src, dst } => {
                let more = es.push(n - 1);
                assert(more[es.len() as int] == n - 1);
                assert forall|i: int|
                    #![trigger drafts[i]]
                    0 <= i < n implies (drafts[i] is Node ==> ns.contains(i)) && (
                drafts[i] is Edge ==> more.contains(i)) by {
                    if i < n - 1 && es.contains(i) {
                        assert(more[es.index_of(i)] == i);
                    }
                }
                (ns, more)
            },
        }
    }
}

/// Every event of an insertion, of a node and of an edge, holds from the start
/// to the end that the statement gives and is written at the time of the
/// transaction.
pub proof fn law_insertions_hold_for_the_given_time(
    drafts: Seq<DraftView>,
    iids: Seq<Iid>,
    range: ValidRange,
)
    ensures
        ({
            let eff = drafts_created(drafts, iids, range);
            &&& forall|k: int|
                0 <= k < eff.nodes.len() ==> {
                    &&& (#[trigger] eff.nodes[k]).valid_from == range.valid_from
                    &&& eff.nodes[k].valid_to == range.valid_to
                    &&& eff.nodes[k].system_from == range.system
                }
            &&& forall|k: int|
                0 <= k < eff.edges.len() ==> {
                    &&& (#[trigger] eff.edges[k]).valid_from == range.valid_from
                    &&& eff.edges[k].valid_to == range.valid_to
                    &&& eff.edges[k].system_from == range.system
                }
        }),
{
    let (ns, es) = lemma_created(drafts, iids, range, drafts.len() as int);
    let eff = drafts_created(drafts, iids, range);
    assert forall|k: int| 0 <= k < eff.nodes.len() implies ({
        &&& (#[trigger] eff.nodes[k]).valid_from == range.valid_from
        &&& eff.nodes[k].valid_to == range.valid_to
        &&& eff.nodes[k].system_from == range.system
    }) by {
        assert(0 <= ns[k] < drafts.len());
    }
    assert forall|k: int| 0 <= k < eff.edges.len() implies ({
        &&& (#[trigger] eff.edges[k]).valid_from == range.valid_from
        &&& eff.edges[k].valid_to == range.valid_to
        &&& eff.edges[k].system_from == range.system
    }) by {
        assert(0 <= es[k] < drafts.len());
    }
}

/// Every drafted element is created by one event, the nodes and the edges each
/// in the order of the drafts: a node with its labels, an edge with its label
/// and between its ends, each with its document and under its own identifier.
/// Nothing else is created, and the tally counts just these.
pub proof fn law_each_draft_is_created_once(
    drafts: Seq<DraftView>,
    iids: Seq<Iid>,
    range: ValidRange,
) -> (places: (Seq<int>, Seq<int>))
    ensures
        ({
            let eff = drafts_created(drafts, iids, range);
            let (ns, es) = places;
            &&& eff.nodes.len() == ns.len()
            &&& eff.edges.len() == es.len()
            &&& ns.len() + es.len() == drafts.len()
            &&& eff.catalog_ops.len() == 0
            &&& eff.side_effects.nodes_deleted == 0
            &&& eff.side_effects.relationships_deleted == 0
            &&& eff.side_effects.nodes_created == sat(ns.len() as int)
            &&& eff.side_effects.relationships_created == sat(es.len() as int)
            &&& forall|k: int|
                0 <= k < ns.len() ==> 0 <= #[trigger] ns[k] < drafts.len() && is_node_of(
                    eff.nodes[k],
                    drafts[ns[k]],
                    iids[ns[k]],
                    range,
                )
            &&& forall|k: int|
                0 <= k < es.len() ==> 0 <= #[trigger] es[k] < drafts.len() && is_edge_of(
                    eff.edges[k],
                    drafts[es[k]],
                    iids[es[k]],
                    iids,
                    range,
                )
            &&& forall|a: int, b: int| 0 <= a < b < ns.len() ==> ns[a] < ns[b]
            &&& forall|a: int, b: int| 0 <= a < b < es.len() ==> es[a] < es[b]
            &&& forall|i: int|
                #![trigger drafts[i]]
                0 <= i < drafts.len() ==> (drafts[i] is Node ==> ns.contains(i)) && (
                drafts[i] is Edge ==> es.contains(i))
        }),
{
    lemma_created(drafts, iids, range, drafts.len() as int)
}

/// A document that has an `_id` keeps it, and its identifier is derived from it.
/// Another one gets an `_id` and nothing else; its identifier is derived from
/// that. Either way the document says from what it is derived.
pub proof fn law_identifiers_come_from_the_document(doc: DocView, tx_id: u64, ordinal: nat)
    ensures
        ({
            let (after, id) = put_id_spec(doc, tx_id, ordinal);
            &&& after.dom().contains("_id"@)
            &&& after["_id"@] == id
            &&& (doc.dom().contains("_id"@) ==> after == doc)
            &&& (!doc.dom().contains("_id"@) ==> after.dom() == doc.dom().insert("_id"@) && forall|
                k: Seq<char>,
            | #[trigger]
                doc.dom().contains(k) ==> after[k] == doc[k])
            &&& (!doc.dom().contains("_id"@) ==> id == ValueView::Str(
                "varve:gen:"@ + decimal(tx_id as nat) + ":"@ + decimal(ordinal),
            ))
        }),
{
    let (after, id) = put_id_spec(doc, tx_id, ordinal);
    if !doc.dom().contains("_id"@) {
        assert(after.dom() =~= doc.dom().insert("_id"@));
    }
}

/// A node element either names a node that is bound, and creates nothing, or
/// creates one node, the next one, with the labels and properties that are
/// written. Its variable then stands for it.
pub proof fn law_node_elements_name_or_create(w: Walk, n: NodePattern, cx: InsertContext)
    requires
        w.ids.len() <= usize::MAX,
        walk_node(w, n, cx) is Ok,
    ensures
        ({
            let r = walk_node(w, n, cx)->Ok_0;
            let named = n.var matches Some(v) && w.bound.dom().contains(v@);
            if named {
                &&& r.walk == w
                &&& (n.var matches Some(v) && r.node == w.bound[v@] && w.kinds.dom().contains(v@)
                    && w.kinds[v@] is Node)
                &&& n.props@.len() == 0
            } else {
                &&& r.node == NodeRef::Fresh(w.ids.len() as usize)
                &&& r.walk.ids.len() == w.ids.len() + 1
                &&& r.walk.drafts.len() == w.drafts.len() + 1
                &&& r.walk.ids.drop_last() == w.ids
                &&& r.walk.drafts.drop_last() == w.drafts
                &&& r.walk.ids.last().table is Nodes
                &&& (r.walk.drafts.last() matches DraftView::Node { labels, doc } && (
                n.labels matches LabelSpec::All(l) && labels == views(l@))
                    && doc.dom().contains("_id"@) && r.walk.ids.last().id == doc["_id"@] && (
                props_doc(n.props@, cx.params) matches Ok(given) && forall|k: Seq<char>| #[trigger]
                    given.dom().contains(k) ==> doc.dom().contains(k) && doc[k] == given[k]))
                &&& match n.var {
                    Some(v) => r.walk.bound == w.bound.insert(v@, r.node) && r.walk.kinds
                        == w.kinds.insert(v@, BindingKind::Node),
                    None => r.walk.bound == w.bound && r.walk.kinds == w.kinds,
                }
            }
        }),
{
    let r = walk_node(w, n, cx)->Ok_0;
    assert(w.ids.push(r.walk.ids.last()).drop_last() =~= w.ids);
    assert(w.drafts.push(r.walk.drafts.last()).drop_last() =~= w.drafts);
}

/// A hop creates one edge, the last one, with the label and properties that are
/// written. It leads from the node before to the node of the hop where it
/// points on, and the other way where it points back.
pub proof fn law_hops_lead_where_they_point(from: Reached, h: Hop, cx: InsertContext)
    requires
        walk_hop(from, h, cx) is Ok,
    ensures
        ({
            let r = walk_hop(from, h, cx)->Ok_0;
            let mid = walk_node(from.walk, h.node, cx)->Ok_0;
            &&& walk_node(from.walk, h.node, cx) is Ok
            &&& r.node == mid.node
            &&& r.walk.bound == mid.walk.bound
            &&& r.walk.kinds == mid.walk.kinds
            &&& r.walk.ids.len() == mid.walk.ids.len() + 1
            &&& r.walk.drafts.len() == mid.walk.drafts.len() + 1
            &&& r.walk.ids.drop_last() == mid.walk.ids
            &&& r.walk.drafts.drop_last() == mid.walk.drafts
            &&& r.walk.ids.last().table is Edges
            &&& (r.walk.drafts.last() matches DraftView::Edge { label, doc, src, dst } && label
                == h.edge.label@ && doc.dom().contains("_id"@) && r.walk.ids.last().id
                == doc["_id"@] && (h.edge.direction is Out ==> src == from.node && dst == r.node)
                && (h.edge.direction is In ==> src == r.node && dst == from.node) && (props_doc(
                h.edge.props@,
                cx.params,
            ) matches Ok(given) && forall|k: Seq<char>| #[trigger]
                given.dom().contains(k) ==> doc.dom().contains(k) && doc[k] == given[k]))
        }),
{
    let r = walk_hop(from, h, cx)->Ok_0;
    let mid = walk_node(from.walk, h.node, cx)->Ok_0;
    assert(mid.walk.ids.push(r.walk.ids.last()).drop_last() =~= mid.walk.ids);
    assert(mid.walk.drafts.push(r.walk.drafts.last()).drop_last() =~= mid.walk.drafts);
}

/// Each drafted element asks for an identifier, in its own table and from its
/// own `_id`.
pub open spec fn asks_for_all(w: Walk) -> bool {
    &&& w.ids.len() == w.drafts.len()
    &&& forall|i: int|
        #![trigger w.drafts[i]]
        #![trigger w.ids[i]]
        0 <= i < w.drafts.len() ==> match w.drafts[i] {
            DraftView::Node { doc, .. } => w.ids[i].table is Nodes && doc.dom().contains("_id"@)
                && w.ids[i].id == doc["_id"@],
            DraftView::Edge { doc, .. } => w.ids[i].table is Edges && doc.dom().contains("_id"@)
                && w.ids[i].id == doc["_id"@],
        }
}

proof fn lemma_hops_ask(start: Reached, hops: Seq<Hop>, cx: InsertContext)
    requires
        asks_for_all(start.walk),
        try_fold(hops, start, |at: Reached, h: Hop| walk_hop(at, h, cx)) is Ok,
    ensures
        asks_for_all(try_fold(hops, start, |at: Reached, h: Hop| walk_hop(at, h, cx))->Ok_0.walk),
    decreases hops.len(),
{
    if hops.len() > 0 {
        lemma_hops_ask(start, hops.drop_last(), cx);
    }
}

proof fn lemma_paths_ask(w: Walk, paths: Seq<PathPattern>, cx: InsertContext)
    requires
        asks_for_all(w),
        try_fold(paths, w, |w: Walk, p: PathPattern| walk_path(w, p, cx)) is Ok,
    ensures
        asks_for_all(try_fold(paths, w, |w: Walk, p: PathPattern| walk_path(w, p, cx))->Ok_0),
    decreases paths.len(),
{
    if paths.len() > 0 {
        let front = paths.drop_last();
        lemma_paths_ask(w, front, cx);
        let at = try_fold(front, w, |w: Walk, p: PathPattern| walk_path(w, p, cx))->Ok_0;
        let p = paths.last();
        let start = walk_node(at, p.start, cx)->Ok_0;
        assert(asks_for_all(start.walk));
        lemma_hops_ask(start, p.hops@, cx);
    }
}

proof fn lemma_rows_ask(
    stmt: InsertStmt,
    rows: Seq<Map<Seq<char>, Iid>>,
    kinds: Map<Seq<char>, BindingKind>,
    cx: InsertContext,
)
    requires
        try_fold(
            rows,
            fresh_walk(),
            |w: Walk, row: Map<Seq<char>, Iid>| walk_row(w, row, kinds, stmt.paths@, cx),
        ) is Ok,
    ensures
        asks_for_all(
            try_fold(
                rows,
                fresh_walk(),
                |w: Walk, row: Map<Seq<char>, Iid>| walk_row(w, row, kinds, stmt.paths@, cx),
            )->Ok_0,
        ),
    decreases rows.len(),
{
    if rows.len() > 0 {
        let front = rows.drop_last();
        lemma_rows_ask(stmt, front, kinds, cx);
        let w = try_fold(
            front,
            fresh_walk(),
            |w: Walk, row: Map<Seq<char>, Iid>| walk_row(w, row, kinds, stmt.paths@, cx),
        )->Ok_0;
        let row = rows.last();
        lemma_paths_ask(
            Walk {
                bound: row.map_values(|i: Iid| NodeRef::Known(i)),
                kinds,
                ids: w.ids,
                drafts: w.drafts,
            },
            stmt.paths@,
            cx,
        );
    }
}

/// An insertion asks for one identifier for each element that it creates: in
/// the element's table, from the `_id` that the element's document holds.
pub proof fn law_each_element_asks_for_its_identifier(
    stmt: InsertStmt,
    rows: Seq<Map<Seq<char>, Iid>>,
    kinds: Map<Seq<char>, BindingKind>,
    cx: InsertContext,
)
    requires
        insert_walk(stmt, rows, kinds, cx) is Ok,
    ensures
        asks_for_all(insert_walk(stmt, rows, kinds, cx)->Ok_0),
{
    if stmt.match_part is None {
        let none = Map::<Seq<char>, Iid>::empty();
        lemma_paths_ask(
            Walk {
                bound: none.map_values(|i: Iid| NodeRef::Known(i)),
                kinds: Map::empty(),
                ids: Seq::empty(),
                drafts: Seq::empty(),
            },
            stmt.paths@,
            cx,
        );
    } else {
        lemma_rows_ask(stmt, rows, kinds, cx);
    }
}

/// A `MATCH` that finds nothing inserts nothing. Without one the rows do not
/// matter: the patterns are created once.
pub proof fn law_insertions_follow_the_match(
    stmt: InsertStmt,
    rows: Seq<Map<Seq<char>, Iid>>,
    kinds: Map<Seq<char>, BindingKind>,
    cx: InsertContext,
)
    ensures
        stmt.match_part is Some ==> (insert_walk(stmt, Seq::empty(), kinds, cx) matches Ok(w)
            && w.drafts.len() == 0 && w.ids.len() == 0),
        stmt.match_part is None ==> insert_walk(stmt, rows, kinds, cx) == insert_walk(
            stmt,
            Seq::empty(),
            Map::empty(),
            cx,
        ),
{
}

proof fn lemma_one_path(w: Walk, p: PathPattern, cx: InsertContext)
    ensures
        try_fold(seq![p], w, |w: Walk, p: PathPattern| walk_path(w, p, cx)) == walk_path(w, p, cx),
{
    let step = |w: Walk, p: PathPattern| walk_path(w, p, cx);
    let none = Seq::<PathPattern>::empty();
    assert(seq![p].drop_last() =~= none);
    assert(try_fold(none, w, step) == Ok::<Walk, Stop>(w));
    assert(seq![p].last() == p);
}

/// One path of a single, new node gives one element in every row: as many nodes
/// are drafted as rows were matched.
pub proof fn law_every_row_inserts(
    stmt: InsertStmt,
    rows: Seq<Map<Seq<char>, Iid>>,
    kinds: Map<Seq<char>, BindingKind>,
    cx: InsertContext,
    p: PathPattern,
)
    requires
        stmt.match_part is Some,
        stmt.paths@ == seq![p],
        p.hops@.len() == 0,
        p.start.var is None,
        insert_walk(stmt, rows, kinds, cx) is Ok,
    ensures
        insert_walk(stmt, rows, kinds, cx)->Ok_0.drafts.len() == rows.len(),
    decreases rows.len(),
{
    if rows.len() > 0 {
        let front = rows.drop_last();
        law_every_row_inserts(stmt, front, kinds, cx, p);
        let w = insert_walk(stmt, front, kinds, cx)->Ok_0;
        let row = rows.last();
        let at = Walk {
            bound: row.map_values(|i: Iid| NodeRef::Known(i)),
            kinds,
            ids: w.ids,
            drafts: w.drafts,
        };
        lemma_one_path(at, p, cx);
        assert(walk_row(w, row, kinds, stmt.paths@, cx) == walk_path(at, p, cx));
    }
}

} // verus!
