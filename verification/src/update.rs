//! `MATCH ... SET` and `MATCH ... REMOVE`.

use crate::ast::{PathPattern, RemoveItem};
use crate::bindings::{
    edge_endpoints_from_match_row, endpoints_in_paths, BindingKind, Kinds, Row,
};
use crate::delete::rows_wf;
use crate::doc::{docs_same, names_set, side_effect_property_delta, Doc, DocView};
use crate::effects::{Effects, EffectsView};
use crate::error::{EngineError, ErrorView};
use crate::event::{Event, EventView, Op, OpView};
use crate::fold::{
    fold, lemma_fold_all, lemma_fold_step, lemma_try_fold_all, lemma_try_fold_fails,
    lemma_try_fold_step, try_fold,
};
use crate::sorted::{
    lemma_ascending_index, lemma_map_keys_sorted, lemma_set_items_sorted, lemma_sorted_domain,
    lemma_sorted_exists, sorted_seq, SortedMap, SortedSet,
};
use crate::text::{
    clone_texts, concat2, contains_text, decimal, decimal_text, same_texts, text_is, views,
};
use crate::types::{Iid, Instant, Value, ValueView};
use crate::visible::{PayloadView, Visible};
use vstd::prelude::*;

verus! {

/// The column that carries the value of a `SET` item.
pub fn set_value_alias(idx: usize) -> (r: String)
    ensures
        r@ == "__set_value_"@ + decimal(idx as nat),
{
    concat2("__set_value_", decimal_text(idx as u64).as_str())
}

/// The labels with `label` among them, added at the end where it is new.
pub open spec fn with_label(labels: Seq<Seq<char>>, label: Seq<char>) -> Seq<Seq<char>> {
    if labels.contains(label) {
        labels
    } else {
        labels.push(label)
    }
}

/// Adds a label where it is not there yet.
pub fn add_label(labels: &mut Vec<String>, label: &str)
    ensures
        views(final(labels)@) == with_label(views(old(labels)@), label@),
{
    if !contains_text(labels, label) {
        let l = label.to_owned();
        proof {
            crate::text::lemma_views_push(labels@, l);
        }
        labels.push(l);
    }
}

/// The labels without `label`.
pub open spec fn without_label(labels: Seq<Seq<char>>, label: Seq<char>) -> Seq<Seq<char>> {
    labels.filter(|l: Seq<char>| l != label)
}

/// Takes a label out, wherever it stands.
pub fn remove_label(labels: &mut Vec<String>, label: &str)
    ensures
        views(final(labels)@) == without_label(views(old(labels)@), label@),
{
    let ghost all = views(labels@);
    let ghost keep = |l: Seq<char>| l != label@;
    let mut kept: Vec<String> = Vec::new();
    let mut i: usize = 0;
    assert(all.subrange(0, 0).filter(keep) =~= Seq::empty()) by {
        reveal(Seq::filter);
    }
    assert(views(kept@) =~= Seq::empty());
    while i < labels.len()
        invariant
            i <= labels.len(),
            labels@ == old(labels)@,
            all == views(labels@),
            keep == (|l: Seq<char>| l != label@),
            views(kept@) == all.subrange(0, i as int).filter(keep),
        decreases labels.len() - i,
    {
        proof {
            let longer = all.subrange(0, i + 1);
            assert(longer.drop_last() =~= all.subrange(0, i as int));
            reveal(Seq::filter);
            assert(longer.last() == labels@[i as int]@);
        }
        if !text_is(&labels[i], label) {
            let l = labels[i].clone();
            proof {
                crate::text::lemma_views_push(kept@, l);
            }
            kept.push(l);
        }
        i += 1;
    }
    assert(all.subrange(0, i as int) =~= all);
    *labels = kept;
}

/// The labels that are new, and those that are gone, each in order.
pub fn label_delta(original: &Vec<String>, updated: &Vec<String>) -> (r: (Vec<String>, Vec<String>))
    ensures
        views(r.0@) == sorted_seq::<String>(
            views(updated@).to_set().difference(views(original@).to_set()),
        ),
        views(r.1@) == sorted_seq::<String>(
            views(original@).to_set().difference(views(updated@).to_set()),
        ),
{
    (labels_missing_from(original, updated), labels_missing_from(updated, original))
}

fn labels_missing_from(base: &Vec<String>, other: &Vec<String>) -> (r: Vec<String>)
    ensures
        views(r@) == sorted_seq::<String>(
            views(other@).to_set().difference(views(base@).to_set()),
        ),
{
    let ghost all = views(other@);
    let ghost gone = views(base@).to_set();
    let mut set: SortedSet<String> = SortedSet::new();
    let mut i: usize = 0;
    while i < other.len()
        invariant
            i <= other.len(),
            all == views(other@),
            gone == views(base@).to_set(),
            set.wf(),
            forall|x: Seq<char>| #[trigger]
                set@.contains(x) <==> !gone.contains(x) && exists|j: int|
                    0 <= j < i && #[trigger] all[j] == x,
        decreases other.len() - i,
    {
        let ghost before = set@;
        let ghost here = all[i as int];
        if !contains_text(base, other[i].as_str()) {
            set.insert(other[i].clone());
        }
        proof {
            assert forall|x: Seq<char>| #[trigger]
                set@.contains(x) <==> !gone.contains(x) && exists|j: int|
                    0 <= j < i + 1 && #[trigger] all[j] == x by {
                if before.contains(x) {
                    let j = choose|j: int| 0 <= j < i && #[trigger] all[j] == x;
                    assert(0 <= j < i + 1 && all[j] == x);
                }
                if x == here {
                    assert(all[i as int] == x);
                }
            }
        }
        i += 1;
    }
    proof {
        assert(set@ =~= all.to_set().difference(gone));
        lemma_set_items_sorted(set);
    }
    let n = set.len();
    let mut r: Vec<String> = Vec::new();
    let mut k: usize = 0;
    while k < n
        invariant
            k <= n,
            n == set.items().len(),
            r.len() == k,
            forall|j: int| 0 <= j < k ==> (#[trigger] r@[j])@ == set.items()[j],
        decreases n - k,
    {
        r.push(set.item_at(k).clone());
        k += 1;
    }
    assert(views(r@) =~= set.items());
    r
}

/// An element that a statement is changing.
pub struct PendingEntity {
    pub kind: BindingKind,
    pub original_labels: Vec<String>,
    pub original_doc: Doc,
    pub labels: Vec<String>,
    pub doc: Doc,
    pub src: Option<Iid>,
    pub dst: Option<Iid>,
}

#[verifier::ext_equal]
pub struct PendingView {
    pub kind: BindingKind,
    pub original: PayloadView,
    pub labels: Seq<Seq<char>>,
    pub doc: DocView,
    pub src: Option<Iid>,
    pub dst: Option<Iid>,
}

impl View for PendingEntity {
    type V = PendingView;

    open spec fn view(&self) -> PendingView {
        PendingView {
            kind: self.kind,
            original: PayloadView { labels: views(self.original_labels@), doc: self.original_doc@ },
            labels: views(self.labels@),
            doc: self.doc@,
            src: self.src,
            dst: self.dst,
        }
    }
}

impl PendingEntity {
    pub open spec fn wf(&self) -> bool {
        self.original_doc.wf() && self.doc.wf()
    }
}

/// The elements that a statement is changing.
pub type PendingMap = Map<Iid, PendingView>;

pub open spec fn pending_view(m: SortedMap<Iid, PendingEntity>) -> PendingMap {
    m@.map_values(|e: PendingEntity| e@)
}

pub open spec fn pending_wf(m: SortedMap<Iid, PendingEntity>) -> bool {
    m.wf() && forall|i: Iid| #[trigger] m@.dom().contains(i) ==> m@[i].wf()
}

/// One change of an element.
pub enum Change {
    SetProp { prop: String, value: Result<Value, String> },
    AddLabel { label: String },
    DropProp { prop: String },
    DropLabel { label: String },
}

pub enum ChangeView {
    SetProp { prop: Seq<char>, value: Result<ValueView, Seq<char>> },
    AddLabel { label: Seq<char> },
    DropProp { prop: Seq<char> },
    DropLabel { label: Seq<char> },
}

pub open spec fn cell_view(c: Result<Value, String>) -> Result<ValueView, Seq<char>> {
    match c {
        Ok(v) => Ok(v@),
        Err(t) => Err(t@),
    }
}

impl View for Change {
    type V = ChangeView;

    open spec fn view(&self) -> ChangeView {
        match self {
            Change::SetProp { prop, value } => ChangeView::SetProp {
                prop: prop@,
                value: cell_view(*value),
            },
            Change::AddLabel { label } => ChangeView::AddLabel { label: label@ },
            Change::DropProp { prop } => ChangeView::DropProp { prop: prop@ },
            Change::DropLabel { label } => ChangeView::DropLabel { label: label@ },
        }
    }
}

/// An element after one change. A value that could not be read fails.
pub open spec fn changed(e: PendingView, c: ChangeView) -> Result<PendingView, ErrorView> {
    match c {
        ChangeView::SetProp { prop, value } => match value {
            Ok(v) => Ok(PendingView { doc: e.doc.insert(prop, v), ..e }),
            Err(text) => Err(ErrorView::Unsupported(text)),
        },
        ChangeView::AddLabel { label } => Ok(
            PendingView { labels: with_label(e.labels, label), ..e },
        ),
        ChangeView::DropProp { prop } => Ok(PendingView { doc: e.doc.remove(prop), ..e }),
        ChangeView::DropLabel { label } => Ok(
            PendingView { labels: without_label(e.labels, label), ..e },
        ),
    }
}

/// One change of the element that a row binds to `var`. An element that is not
/// bound or not visible is passed over; one matched in two shapes is refused.
pub open spec fn change_bound(
    pending: PendingMap,
    var: Seq<char>,
    c: ChangeView,
    row: Map<Seq<char>, Iid>,
    kinds: Map<Seq<char>, BindingKind>,
    paths: Seq<PathPattern>,
    visible: Visible,
) -> Result<PendingMap, ErrorView> {
    if !kinds.dom().contains(var) {
        Err(ErrorView::UnboundVariable(var))
    } else if !row.dom().contains(var) {
        Ok(pending)
    } else {
        let kind = kinds[var];
        let iid = row[var];
        let ends = if kind == BindingKind::Edge {
            match endpoints_in_paths(paths, 0, var, row) {
                Err(e) => Err(e),
                Ok((s, d)) => Ok((Some(s), Some(d))),
            }
        } else {
            Ok((None, None))
        };
        match ends {
            Err(e) => Err(e),
            Ok((src, dst)) => {
                let loaded = if pending.dom().contains(iid) {
                    Some(pending[iid])
                } else {
                    match visible.lookup(kind, iid) {
                        None => None,
                        Some(p) => Some(
                            PendingView {
                                kind,
                                original: p,
                                labels: p.labels,
                                doc: p.doc,
                                src,
                                dst,
                            },
                        ),
                    }
                };
                match loaded {
                    None => Ok(pending),
                    Some(e) => if e.kind != kind || e.src != src || e.dst != dst {
                        Err(
                            ErrorView::Unsupported(
                                "mutation target matched conflicting entity shape"@,
                            ),
                        )
                    } else {
                        match changed(e, c) {
                            Err(err) => Err(err),
                            Ok(e2) => Ok(pending.insert(iid, e2)),
                        }
                    },
                }
            },
        }
    }
}

fn apply_change(entity: &mut PendingEntity, change: Change) -> (r: Result<(), EngineError>)
    requires
        old(entity).wf(),
    ensures
        final(entity).wf(),
        match r {
            Ok(()) => changed(old(entity)@, change@) == Ok::<PendingView, ErrorView>(
                final(entity)@,
            ),
            Err(e) => changed(old(entity)@, change@) == Err::<PendingView, ErrorView>(e@),
        },
{
    match change {
        Change::SetProp { prop, value } => match value {
            Ok(v) => {
                entity.doc.insert(prop, v);
                Ok(())
            },
            Err(text) => Err(EngineError::Unsupported(text)),
        },
        Change::AddLabel { label } => {
            add_label(&mut entity.labels, label.as_str());
            Ok(())
        },
        Change::DropProp { prop } => {
            entity.doc.remove(prop.as_str());
            Ok(())
        },
        Change::DropLabel { label } => {
            remove_label(&mut entity.labels, label.as_str());
            Ok(())
        },
    }
}

/// Loads the element into the pending ones where it is not there yet. `None`
/// where it is not visible.
fn take_pending_entity(
    pending: &mut SortedMap<Iid, PendingEntity>,
    kind: BindingKind,
    iid: Iid,
    src: Option<Iid>,
    dst: Option<Iid>,
    visible: &Visible,
) -> (r: Option<PendingEntity>)
    requires
        pending_wf(*old(pending)),
        visible.wf(),
    ensures
        pending_wf(*final(pending)),
        pending_view(*final(pending)) == pending_view(*old(pending)).remove(iid),
        r matches Some(e) ==> e.wf(),
        match r {
            Some(e) => if pending_view(*old(pending)).dom().contains(iid) {
                e@ == pending_view(*old(pending))[iid]
            } else {
                visible.lookup(kind, iid) matches Some(p) && e@ == (PendingView {
                    kind,
                    original: p,
                    labels: p.labels,
                    doc: p.doc,
                    src,
                    dst,
                })
            },
            None => !pending_view(*old(pending)).dom().contains(iid) && visible.lookup(kind, iid)
                is None,
        },
{
    let ghost before = pending@;
    let taken = pending.remove(&iid);
    assert(pending_view(*pending) =~= before.map_values(|e: PendingEntity| e@).remove(iid));
    match taken {
        Some(e) => Some(e),
        None => match visible.get(kind, iid) {
            None => None,
            Some(p) => Some(
                PendingEntity {
                    kind,
                    original_labels: clone_texts(&p.labels),
                    original_doc: p.doc.clone_doc(),
                    labels: clone_texts(&p.labels),
                    doc: p.doc.clone_doc(),
                    src,
                    dst,
                },
            ),
        },
    }
}

pub fn change_row(
    pending: &mut SortedMap<Iid, PendingEntity>,
    var: &String,
    change: Change,
    row: &Row,
    kinds: &Kinds,
    paths: &Vec<PathPattern>,
    visible: &Visible,
) -> (r: Result<(), EngineError>)
    requires
        pending_wf(*old(pending)),
        row.wf(),
        kinds.wf(),
        visible.wf(),
    ensures
        pending_wf(*final(pending)),
        ({
            let want = change_bound(
                pending_view(*old(pending)),
                var@,
                change@,
                row@,
                kinds@,
                paths@,
                *visible,
            );
            match r {
                Ok(()) => want == Ok::<PendingMap, ErrorView>(pending_view(*final(pending))),
                Err(e) => want == Err::<PendingMap, ErrorView>(e@),
            }
        }),
{
    let kind = match kinds.get(var) {
        Some(k) => *k,
        None => {
            return Err(EngineError::UnboundVariable(var.clone()));
        },
    };
    let iid = match row.get(var) {
        Some(i) => *i,
        None => {
            return Ok(());
        },
    };
    let (src, dst) = match kind {
        BindingKind::Edge => match edge_endpoints_from_match_row(paths, var.as_str(), row) {
            Err(e) => {
                return Err(e);
            },
            Ok((s, d)) => (Some(s), Some(d)),
        },
        BindingKind::Node => (None, None),
    };
    let ghost before = pending_view(*pending);
    match take_pending_entity(pending, kind, iid, src, dst, visible) {
        None => {
            assert(before.remove(iid) =~= before);
            Ok(())
        },
        Some(entity) => {
            let mut entity = entity;
            if entity.kind != kind || entity.src != src || entity.dst != dst {
                return Err(
                    EngineError::Unsupported(
                        "mutation target matched conflicting entity shape".to_owned(),
                    ),
                );
            }
            match apply_change(&mut entity, change) {
                Err(e) => Err(e),
                Ok(()) => {
                    let ghost rest = pending@;
                    let ghost after = entity@;
                    pending.insert(iid, entity);
                    assert(pending_view(*pending) =~= rest.map_values(
                        |e: PendingEntity| e@,
                    ).insert(iid, after));
                    assert(pending_view(*pending) =~= before.insert(iid, after));
                    Ok(())
                },
            }
        },
    }
}

/// The change of an element: nothing where it is as it was, else its new state
/// as an event, with what was set, removed, added and dropped.
pub open spec fn pending_effect(
    eff: EffectsView,
    iid: Iid,
    e: PendingView,
    system: Instant,
) -> EffectsView {
    if e.labels == e.original.labels && docs_same(e.doc, e.original.doc) {
        eff
    } else {
        let counted = eff.properties(
            names_set(e.original.doc, e.doc).len() as int,
            names_set(e.doc, e.original.doc).len() as int,
        );
        let event = EventView {
            iid,
            system_from: system,
            valid_from: system,
            valid_to: Instant::end_of_time(),
            src: e.src,
            dst: e.dst,
            op: OpView::Put { labels: e.labels, doc: e.doc },
        };
        match e.kind {
            BindingKind::Node => counted.added_labels(
                sorted_seq::<String>(e.labels.to_set().difference(e.original.labels.to_set())),
            ).removed_labels(
                sorted_seq::<String>(e.original.labels.to_set().difference(e.labels.to_set())),
            ).push_node(event),
            BindingKind::Edge => counted.push_edge(event),
        }
    }
}

/// The changes of all pending elements, in the order of their identifiers.
pub open spec fn pending_effects(pending: PendingMap, system: Instant) -> EffectsView {
    fold(
        sorted_seq::<Iid>(pending.dom()),
        EffectsView::empty(),
        |eff: EffectsView, iid: Iid| pending_effect(eff, iid, pending[iid], system),
    )
}

pub fn push_pending_effects(pending: &SortedMap<Iid, PendingEntity>, system: Instant) -> (r: Effects)
    requires
        pending_wf(*pending),
    ensures
        r.wf(),
        r@ == pending_effects(pending_view(*pending), system),
{
    let ghost map = pending_view(*pending);
    let ghost keys = pending.keys();
    let ghost step = |eff: EffectsView, iid: Iid| pending_effect(eff, iid, map[iid], system);
    let mut effects = Effects::new();
    let n = pending.len();
    let mut i: usize = 0;
    proof {
        lemma_map_keys_sorted(*pending);
        lemma_sorted_domain(*pending);
        assert(map.dom() =~= pending@.dom());
        lemma_fold_all(keys, EffectsView::empty(), step);
    }
    while i < n
        invariant
            i <= n,
            n == keys.len(),
            keys == pending.keys(),
            pending_wf(*pending),
            map == pending_view(*pending),
            forall|k: int|
                0 <= k < keys.len() ==> pending@.dom().contains(#[trigger] keys[k])
                    && pending@[keys[k]] == pending.values()[k],
            step == (|eff: EffectsView, iid: Iid| pending_effect(eff, iid, map[iid], system)),
            effects.wf(),
            effects@ == fold(keys.subrange(0, i as int), EffectsView::empty(), step),
        decreases n - i,
    {
        proof {
            lemma_fold_step(keys, EffectsView::empty(), step, i as int);
            assert(pending@.dom().contains(keys[i as int]));
        }
        let iid = *pending.key_at(i);
        let entity = pending.value_at(i);
        assert(map[iid] == entity@);
        if !(same_texts(&entity.labels, &entity.original_labels) && entity.doc.same(
            &entity.original_doc,
        )) {
            let (set, removed) = side_effect_property_delta(&entity.original_doc, &entity.doc);
            effects.record_properties(set, removed);
            let event = Event {
                iid,
                system_from: system,
                valid_from: system,
                valid_to: Instant::end_of_time(),
                src: entity.src,
                dst: entity.dst,
                op: Op::Put { labels: clone_texts(&entity.labels), doc: entity.doc.clone_doc() },
            };
            match entity.kind {
                BindingKind::Node => {
                    let (added, dropped) = label_delta(&entity.original_labels, &entity.labels);
                    effects.record_labels_added(&added);
                    effects.record_labels_removed(&dropped);
                    effects.push_node(event);
                },
                BindingKind::Edge => {
                    effects.push_edge(event);
                },
            }
        }
        i += 1;
    }
    proof {
        lemma_fold_all(keys, EffectsView::empty(), step);
    }
    effects
}

pub open spec fn remove_item_var_spec(item: RemoveItem) -> Seq<char> {
    match item {
        RemoveItem::Prop { var, .. } => var@,
        RemoveItem::Label { var, .. } => var@,
    }
}

pub open spec fn remove_change(item: RemoveItem) -> ChangeView {
    match item {
        RemoveItem::Prop { prop, .. } => ChangeView::DropProp { prop: prop@ },
        RemoveItem::Label { label, .. } => ChangeView::DropLabel { label: label@ },
    }
}

/// The variable of a `REMOVE` item.
pub fn remove_item_var(item: &RemoveItem) -> (r: &String)
    ensures
        r@ == remove_item_var_spec(*item),
{
    match item {
        RemoveItem::Prop { var, .. } => var,
        RemoveItem::Label { var, .. } => var,
    }
}

/// The items of one row of a `REMOVE`.
pub open spec fn remove_row(
    pending: PendingMap,
    row: Map<Seq<char>, Iid>,
    items: Seq<RemoveItem>,
    kinds: Map<Seq<char>, BindingKind>,
    paths: Seq<PathPattern>,
    visible: Visible,
) -> Result<PendingMap, ErrorView> {
    try_fold(
        items,
        pending,
        |m: PendingMap, item: RemoveItem|
            change_bound(
                m,
                remove_item_var_spec(item),
                remove_change(item),
                row,
                kinds,
                paths,
                visible,
            ),
    )
}

/// The first item of a `REMOVE` whose variable is not bound.
pub open spec fn remove_unbound(
    items: Seq<RemoveItem>,
    kinds: Map<Seq<char>, BindingKind>,
    i: int,
) -> Option<Seq<char>>
    decreases items.len() - i,
{
    if i < 0 || i >= items.len() {
        None
    } else if !kinds.dom().contains(remove_item_var_spec(items[i])) {
        Some(remove_item_var_spec(items[i]))
    } else {
        remove_unbound(items, kinds, i + 1)
    }
}

/// What a `REMOVE` does: its items, applied to each matched row in turn.
pub open spec fn remove_spec(
    items: Seq<RemoveItem>,
    rows: Seq<Map<Seq<char>, Iid>>,
    kinds: Map<Seq<char>, BindingKind>,
    paths: Seq<PathPattern>,
    visible: Visible,
    system: Instant,
) -> Result<EffectsView, ErrorView> {
    match remove_unbound(items, kinds, 0) {
        Some(var) => Err(ErrorView::UnboundVariable(var)),
        None => match try_fold(
            rows,
            Map::<Iid, PendingView>::empty(),
            |m: PendingMap, row: Map<Seq<char>, Iid>|
                remove_row(m, row, items, kinds, paths, visible),
        ) {
            Err(e) => Err(e),
            Ok(pending) => Ok(pending_effects(pending, system)),
        },
    }
}

fn remove_from_row(
    pending: &mut SortedMap<Iid, PendingEntity>,
    row: &Row,
    items: &Vec<RemoveItem>,
    kinds: &Kinds,
    paths: &Vec<PathPattern>,
    visible: &Visible,
) -> (r: Result<(), EngineError>)
    requires
        pending_wf(*old(pending)),
        row.wf(),
        kinds.wf(),
        visible.wf(),
    ensures
        pending_wf(*final(pending)),
        ({
            let want = remove_row(
                pending_view(*old(pending)),
                row@,
                items@,
                kinds@,
                paths@,
                *visible,
            );
            match r {
                Ok(()) => want == Ok::<PendingMap, ErrorView>(pending_view(*final(pending))),
                Err(e) => want == Err::<PendingMap, ErrorView>(e@),
            }
        }),
{
    let ghost start = pending_view(*pending);
    let ghost step = |m: PendingMap, item: RemoveItem|
        change_bound(
            m,
            remove_item_var_spec(item),
            remove_change(item),
            row@,
            kinds@,
            paths@,
            *visible,
        );
    let mut i: usize = 0;
    proof {
        lemma_try_fold_all(items@, start, step);
    }
    while i < items.len()
        invariant
            i <= items.len(),
            pending_wf(*pending),
            row.wf(),
            kinds.wf(),
            visible.wf(),
            start == pending_view(*old(pending)),
            step == (|m: PendingMap, item: RemoveItem|
                change_bound(
                    m,
                    remove_item_var_spec(item),
                    remove_change(item),
                    row@,
                    kinds@,
                    paths@,
                    *visible,
                )),
            try_fold(items@.subrange(0, i as int), start, step) == Ok::<PendingMap, ErrorView>(
                pending_view(*pending),
            ),
        decreases items.len() - i,
    {
        proof {
            lemma_try_fold_step(items@, start, step, i as int);
            if try_fold(items@.subrange(0, i + 1), start, step) is Err {
                lemma_try_fold_fails(items@, start, step, i + 1);
            }
        }
        let change = match &items[i] {
            RemoveItem::Prop { prop, .. } => Change::DropProp { prop: prop.clone() },
            RemoveItem::Label { label, .. } => Change::DropLabel { label: label.clone() },
        };
        match change_row(
            pending,
            remove_item_var(&items[i]),
            change,
            row,
            kinds,
            paths,
            visible,
        ) {
            Ok(()) => {},
            Err(e) => {
                return Err(e);
            },
        }
        i += 1;
    }
    proof {
        lemma_try_fold_all(items@, start, step);
    }
    Ok(())
}

/// Resolves a `REMOVE`. `rows` and `kinds` are what its `MATCH` bound, and
/// `visible` the payloads of the elements concerned.
pub fn resolve_remove(
    items: &Vec<RemoveItem>,
    rows: &Vec<Row>,
    kinds: &Kinds,
    paths: &Vec<PathPattern>,
    visible: &Visible,
    system: Instant,
) -> (r: Result<Effects, EngineError>)
    requires
        rows_wf(rows@),
        kinds.wf(),
        visible.wf(),
    ensures
        ({
            let want = remove_spec(items@, views(rows@), kinds@, paths@, *visible, system);
            match r {
                Ok(eff) => eff.wf() && want == Ok::<EffectsView, ErrorView>(eff@),
                Err(e) => want == Err::<EffectsView, ErrorView>(e@),
            }
        }),
{
    let mut k: usize = 0;
    while k < items.len()
        invariant
            k <= items.len(),
            kinds.wf(),
            remove_unbound(items@, kinds@, 0) == remove_unbound(items@, kinds@, k as int),
        decreases items.len() - k,
    {
        let var = remove_item_var(&items[k]);
        if !kinds.contains_key(var) {
            return Err(EngineError::UnboundVariable(var.clone()));
        }
        k += 1;
    }
    let ghost all = views(rows@);
    let ghost none = Map::<Iid, PendingView>::empty();
    let ghost step = |m: PendingMap, row: Map<Seq<char>, Iid>|
        remove_row(m, row, items@, kinds@, paths@, *visible);
    let mut pending: SortedMap<Iid, PendingEntity> = SortedMap::new();
    let mut i: usize = 0;
    proof {
        assert(pending_view(pending) =~= none);
        lemma_try_fold_all(all, none, step);
    }
    while i < rows.len()
        invariant
            i <= rows.len(),
            rows_wf(rows@),
            kinds.wf(),
            visible.wf(),
            pending_wf(pending),
            all == views(rows@),
            remove_unbound(items@, kinds@, 0) is None,
            none == Map::<Iid, PendingView>::empty(),
            step == (|m: PendingMap, row: Map<Seq<char>, Iid>|
                remove_row(m, row, items@, kinds@, paths@, *visible)),
            try_fold(all.subrange(0, i as int), none, step) == Ok::<PendingMap, ErrorView>(
                pending_view(pending),
            ),
        decreases rows.len() - i,
    {
        proof {
            lemma_try_fold_step(all, none, step, i as int);
            if try_fold(all.subrange(0, i + 1), none, step) is Err {
                lemma_try_fold_fails(all, none, step, i + 1);
            }
            assert(all[i as int] == rows@[i as int]@);
        }
        match remove_from_row(&mut pending, &rows[i], items, kinds, paths, visible) {
            Ok(()) => {},
            Err(e) => {
                return Err(e);
            },
        }
        i += 1;
    }
    proof {
        lemma_try_fold_all(all, none, step);
    }
    Ok(push_pending_effects(&pending, system))
}

proof fn lemma_without(labels: Seq<Seq<char>>, label: Seq<char>)
    ensures
        forall|l: Seq<char>| #[trigger]
            without_label(labels, label).contains(l) <==> labels.contains(l) && l != label,
    decreases labels.len(),
{
    reveal(Seq::filter);
    let all = without_label(labels, label);
    if labels.len() > 0 {
        let front = labels.drop_last();
        let kept = without_label(front, label);
        lemma_without(front, label);
        assert(all == if labels.last() != label {
            kept.push(labels.last())
        } else {
            kept
        });
        assert forall|x: Seq<char>| #[trigger] all.contains(x) <==> labels.contains(x) && x
            != label by {
            if labels.contains(x) && x != label {
                let k = labels.index_of(x);
                if k < front.len() {
                    assert(front[k] == x);
                    assert(kept.contains(x));
                    assert(all[kept.index_of(x)] == x);
                } else {
                    assert(all[all.len() - 1] == x);
                }
            }
            if all.contains(x) {
                let k = all.index_of(x);
                if k < kept.len() {
                    assert(kept[k] == x);
                    assert(kept.contains(x));
                    assert(labels[front.index_of(x)] == x);
                } else {
                    assert(labels[labels.len() - 1] == x);
                }
            }
        }
    }
}

/// A change does to the element what it says and nothing else: a property that
/// is set has the value, one that is dropped is not there, a label that is
/// added is there, one that is dropped is not; every other property and label
/// stays. What the element was before the statement and its ends stay known. A
/// value that could not be read changes nothing.
pub proof fn law_changes_do_what_they_say(e: PendingView, c: ChangeView)
    ensures
        changed(e, c) is Err <==> (c matches ChangeView::SetProp { value, .. } && value is Err),
        changed(e, c) matches Ok(w) ==> {
            &&& w.kind == e.kind
            &&& w.original == e.original
            &&& w.src == e.src
            &&& w.dst == e.dst
            &&& (c matches ChangeView::SetProp { prop, value } ==> {
                &&& w.labels == e.labels
                &&& w.doc.dom().contains(prop)
                &&& value == Ok::<ValueView, Seq<char>>(w.doc[prop])
                &&& forall|k: Seq<char>|
                    k != prop ==> (#[trigger] w.doc.dom().contains(k) <==> e.doc.dom().contains(k))
                        && (e.doc.dom().contains(k) ==> w.doc[k] == e.doc[k])
            })
            &&& (c matches ChangeView::DropProp { prop } ==> {
                &&& w.labels == e.labels
                &&& !w.doc.dom().contains(prop)
                &&& forall|k: Seq<char>|
                    k != prop ==> (#[trigger] w.doc.dom().contains(k) <==> e.doc.dom().contains(k))
                        && (e.doc.dom().contains(k) ==> w.doc[k] == e.doc[k])
            })
            &&& (c matches ChangeView::AddLabel { label } ==> {
                &&& w.doc == e.doc
                &&& w.labels.contains(label)
                &&& e.labels.len() <= w.labels.len() <= e.labels.len() + 1
                &&& w.labels.subrange(0, e.labels.len() as int) == e.labels
                &&& (e.labels.contains(label) ==> w.labels == e.labels)
            })
            &&& (c matches ChangeView::DropLabel { label } ==> {
                &&& w.doc == e.doc
                &&& !w.labels.contains(label)
                &&& forall|l: Seq<char>|
                    l != label ==> (#[trigger] w.labels.contains(l) <==> e.labels.contains(l))
            })
        },
{
    match c {
        ChangeView::AddLabel { label } => {
            let w = with_label(e.labels, label);
            if !e.labels.contains(label) {
                assert(w == e.labels.push(label));
                assert(w[e.labels.len() as int] == label);
            }
            assert(w.subrange(0, e.labels.len() as int) =~= e.labels);
        },
        ChangeView::DropLabel { label } => {
            lemma_without(e.labels, label);
        },
        _ => {},
    }
}

/// A row changes the element that it binds to the variable, where that element
/// is visible or was changed before, and no other element.
pub proof fn law_rows_change_what_they_bind(
    pending: PendingMap,
    var: Seq<char>,
    c: ChangeView,
    row: Map<Seq<char>, Iid>,
    kinds: Map<Seq<char>, BindingKind>,
    paths: Seq<PathPattern>,
    visible: Visible,
)
    requires
        change_bound(pending, var, c, row, kinds, paths, visible) is Ok,
    ensures
        ({
            let w = change_bound(pending, var, c, row, kinds, paths, visible)->Ok_0;
            &&& kinds.dom().contains(var)
            &&& forall|x: Iid|
                !(row.dom().contains(var) && row[var] == x) ==> (#[trigger] w.dom().contains(x)
                    <==> pending.dom().contains(x)) && w[x] == pending[x]
            &&& (row.dom().contains(var) && pending.dom().contains(row[var]) ==> w.dom().contains(
                row[var],
            ) && changed(pending[row[var]], c) == Ok::<PendingView, ErrorView>(w[row[var]])
                && w[row[var]].kind == kinds[var])
            &&& (row.dom().contains(var) && !pending.dom().contains(row[var]) ==> {
                let x = row[var];
                match visible.lookup(kinds[var], x) {
                    None => w == pending,
                    Some(p) => w.dom().contains(x) && w[x].original == p && w[x].kind == kinds[var]
                        && changed(
                        PendingView {
                            kind: kinds[var],
                            original: p,
                            labels: p.labels,
                            doc: p.doc,
                            src: w[x].src,
                            dst: w[x].dst,
                        },
                        c,
                    ) == Ok::<PendingView, ErrorView>(w[x]) && (kinds[var] is Node ==> w[x].src
                        is None && w[x].dst is None) && (kinds[var] is Edge ==> w[x].src is Some
                        && w[x].dst is Some && endpoints_in_paths(paths, 0, var, row) == Ok::<
                        (Iid, Iid),
                        ErrorView,
                    >((w[x].src->0, w[x].dst->0))),
                }
            })
        }),
{
    let w = change_bound(pending, var, c, row, kinds, paths, visible)->Ok_0;
    if row.dom().contains(var) {
        let x = row[var];
        if kinds[var] is Edge {
            let ends = endpoints_in_paths(paths, 0, var, row)->Ok_0;
            assert(ends == (ends.0, ends.1));
        }
        if pending.dom().contains(x) {
            law_changes_do_what_they_say(pending[x], c);
        } else {
            match visible.lookup(kinds[var], x) {
                None => {},
                Some(p) => {
                    let (src, dst) = if kinds[var] is Edge {
                        let ends = endpoints_in_paths(paths, 0, var, row)->Ok_0;
                        (Some(ends.0), Some(ends.1))
                    } else {
                        (None, None)
                    };
                    law_changes_do_what_they_say(
                        PendingView {
                            kind: kinds[var],
                            original: p,
                            labels: p.labels,
                            doc: p.doc,
                            src,
                            dst,
                        },
                        c,
                    );
                },
            }
        }
    }
}

/// The element is not as it was before the statement.
pub open spec fn differs(e: PendingView) -> bool {
    e.labels != e.original.labels || !docs_same(e.doc, e.original.doc)
}

/// The event writes the element's new state, from now on and without end.
pub open spec fn writes(v: EventView, iid: Iid, e: PendingView, system: Instant) -> bool {
    &&& v.iid == iid
    &&& v.system_from == system
    &&& v.valid_from == system
    &&& v.valid_to.us == i64::MAX
    &&& v.src == e.src
    &&& v.dst == e.dst
    &&& (v.op matches OpView::Put { labels, doc } && labels == e.labels && doc == e.doc)
}

spec fn pending_fold(iids: Seq<Iid>, pending: PendingMap, system: Instant) -> EffectsView {
    fold(
        iids,
        EffectsView::empty(),
        |eff: EffectsView, iid: Iid| pending_effect(eff, iid, pending[iid], system),
    )
}

proof fn lemma_pending_step(eff: EffectsView, iid: Iid, e: PendingView, system: Instant)
    ensures
        ({
            let w = pending_effect(eff, iid, e, system);
            &&& w.catalog_ops == eff.catalog_ops
            &&& w.side_effects.nodes_created == eff.side_effects.nodes_created
            &&& w.side_effects.nodes_deleted == eff.side_effects.nodes_deleted
            &&& w.side_effects.relationships_created == eff.side_effects.relationships_created
            &&& w.side_effects.relationships_deleted == eff.side_effects.relationships_deleted
            &&& if differs(e) && e.kind is Node {
                w.nodes.len() == eff.nodes.len() + 1 && w.nodes.drop_last() == eff.nodes && writes(
                    w.nodes.last(),
                    iid,
                    e,
                    system,
                )
            } else {
                w.nodes == eff.nodes
            }
            &&& if differs(e) && e.kind is Edge {
                w.edges.len() == eff.edges.len() + 1 && w.edges.drop_last() == eff.edges && writes(
                    w.edges.last(),
                    iid,
                    e,
                    system,
                )
            } else {
                w.edges == eff.edges
            }
        }),
{
    let w = pending_effect(eff, iid, e, system);
    if differs(e) {
        if e.kind is Node {
            assert(w.nodes.drop_last() =~= eff.nodes);
        } else {
            assert(w.edges.drop_last() =~= eff.edges);
        }
    }
}

proof fn lemma_pending_counts(iids: Seq<Iid>, pending: PendingMap, system: Instant)
    ensures
        ({
            let eff = pending_fold(iids, pending, system);
            &&& eff.catalog_ops.len() == 0
            &&& eff.side_effects.nodes_created == 0
            &&& eff.side_effects.nodes_deleted == 0
            &&& eff.side_effects.relationships_created == 0
            &&& eff.side_effects.relationships_deleted == 0
            &&& eff.nodes.len() + eff.edges.len() <= iids.len()
        }),
    decreases iids.len(),
{
    if iids.len() > 0 {
        let front = iids.drop_last();
        let last = iids.last();
        lemma_pending_counts(front, pending, system);
        lemma_pending_step(pending_fold(front, pending, system), last, pending[last], system);
    }
}

proof fn lemma_pending_written(iids: Seq<Iid>, pending: PendingMap, system: Instant, i: int) -> (k:
    int)
    requires
        0 <= i < iids.len(),
        differs(pending[iids[i]]),
    ensures
        ({
            let eff = pending_fold(iids, pending, system);
            let e = pending[iids[i]];
            &&& (e.kind is Node ==> 0 <= k < eff.nodes.len() && writes(
                eff.nodes[k],
                iids[i],
                e,
                system,
            ))
            &&& (e.kind is Edge ==> 0 <= k < eff.edges.len() && writes(
                eff.edges[k],
                iids[i],
                e,
                system,
            ))
        }),
    decreases iids.len(),
{
    let front = iids.drop_last();
    let last = iids.last();
    let before = pending_fold(front, pending, system);
    let eff = pending_fold(iids, pending, system);
    lemma_pending_step(before, last, pending[last], system);
    if i == iids.len() - 1 {
        if pending[last].kind is Node {
            eff.nodes.len() - 1
        } else {
            eff.edges.len() - 1
        }
    } else {
        let k = lemma_pending_written(front, pending, system, i);
        if pending[iids[i]].kind is Node {
            if eff.nodes != before.nodes {
                assert(eff.nodes.drop_last()[k] == eff.nodes[k]);
            }
        } else {
            if eff.edges != before.edges {
                assert(eff.edges.drop_last()[k] == eff.edges[k]);
            }
        }
        k
    }
}

proof fn lemma_pending_node(iids: Seq<Iid>, pending: PendingMap, system: Instant, k: int) -> (i:
    int)
    requires
        0 <= k < pending_fold(iids, pending, system).nodes.len(),
    ensures
        0 <= i < iids.len(),
        differs(pending[iids[i]]),
        pending[iids[i]].kind is Node,
        writes(
            pending_fold(iids, pending, system).nodes[k],
            iids[i],
            pending[iids[i]],
            system,
        ),
    decreases iids.len(),
{
    if iids.len() == 0 {
        assert(false);
        0
    } else {
        let front = iids.drop_last();
        let last = iids.last();
        let before = pending_fold(front, pending, system);
        let eff = pending_fold(iids, pending, system);
        lemma_pending_step(before, last, pending[last], system);
        if k < before.nodes.len() {
            if eff.nodes != before.nodes {
                assert(eff.nodes.drop_last()[k] == eff.nodes[k]);
            }
            lemma_pending_node(front, pending, system, k)
        } else {
            iids.len() - 1
        }
    }
}

proof fn lemma_pending_edge(iids: Seq<Iid>, pending: PendingMap, system: Instant, k: int) -> (i:
    int)
    requires
        0 <= k < pending_fold(iids, pending, system).edges.len(),
    ensures
        0 <= i < iids.len(),
        differs(pending[iids[i]]),
        pending[iids[i]].kind is Edge,
        writes(
            pending_fold(iids, pending, system).edges[k],
            iids[i],
            pending[iids[i]],
            system,
        ),
    decreases iids.len(),
{
    if iids.len() == 0 {
        assert(false);
        0
    } else {
        let front = iids.drop_last();
        let last = iids.last();
        let before = pending_fold(front, pending, system);
        let eff = pending_fold(iids, pending, system);
        lemma_pending_step(before, last, pending[last], system);
        if k < before.edges.len() {
            if eff.edges != before.edges {
                assert(eff.edges.drop_last()[k] == eff.edges[k]);
            }
            lemma_pending_edge(front, pending, system, k)
        } else {
            iids.len() - 1
        }
    }
}

/// Of the elements that a statement worked on exactly those are written that
/// are not as they were: each with its new labels and properties and its ends,
/// from now on and without end, a node as a node and an edge as an edge.
pub proof fn law_changed_elements_are_written(pending: PendingMap, system: Instant)
    requires
        pending.dom().finite(),
    ensures
        ({
            let eff = pending_effects(pending, system);
            &&& eff.catalog_ops.len() == 0
            &&& eff.side_effects.nodes_created == 0
            &&& eff.side_effects.nodes_deleted == 0
            &&& eff.side_effects.relationships_created == 0
            &&& eff.side_effects.relationships_deleted == 0
            &&& eff.nodes.len() + eff.edges.len() <= pending.dom().len()
            &&& forall|x: Iid| #[trigger]
                pending.dom().contains(x) && differs(pending[x]) && pending[x].kind is Node
                    ==> exists|k: int|
                    0 <= k < eff.nodes.len() && writes(
                        #[trigger] eff.nodes[k],
                        x,
                        pending[x],
                        system,
                    )
            &&& forall|x: Iid| #[trigger]
                pending.dom().contains(x) && differs(pending[x]) && pending[x].kind is Edge
                    ==> exists|k: int|
                    0 <= k < eff.edges.len() && writes(
                        #[trigger] eff.edges[k],
                        x,
                        pending[x],
                        system,
                    )
            &&& forall|k: int|
                0 <= k < eff.nodes.len() ==> {
                    let x = (#[trigger] eff.nodes[k]).iid;
                    pending.dom().contains(x) && differs(pending[x]) && pending[x].kind is Node
                        && writes(eff.nodes[k], x, pending[x], system)
                }
            &&& forall|k: int|
                0 <= k < eff.edges.len() ==> {
                    let x = (#[trigger] eff.edges[k]).iid;
                    pending.dom().contains(x) && differs(pending[x]) && pending[x].kind is Edge
                        && writes(eff.edges[k], x, pending[x], system)
                }
        }),
{
    let iids = sorted_seq::<Iid>(pending.dom());
    let eff = pending_effects(pending, system);
    lemma_sorted_exists::<Iid>(pending.dom());
    assert(eff == pending_fold(iids, pending, system));
    lemma_pending_counts(iids, pending, system);
    if iids.len() > 0 {
        lemma_ascending_index::<Iid>(iids, 0);
    }
    iids.unique_seq_to_set();
    assert forall|x: Iid| #[trigger]
        pending.dom().contains(x) && differs(pending[x]) && pending[x].kind is Node implies exists|
        k: int,
    |
        0 <= k < eff.nodes.len() && writes(#[trigger] eff.nodes[k], x, pending[x], system) by {
        assert(iids.to_set().contains(x));
        let k = lemma_pending_written(iids, pending, system, iids.index_of(x));
        assert(writes(eff.nodes[k], x, pending[x], system));
    }
    assert forall|x: Iid| #[trigger]
        pending.dom().contains(x) && differs(pending[x]) && pending[x].kind is Edge implies exists|
        k: int,
    |
        0 <= k < eff.edges.len() && writes(#[trigger] eff.edges[k], x, pending[x], system) by {
        assert(iids.to_set().contains(x));
        let k = lemma_pending_written(iids, pending, system, iids.index_of(x));
        assert(writes(eff.edges[k], x, pending[x], system));
    }
    assert forall|k: int| 0 <= k < eff.nodes.len() implies ({
        let x = (#[trigger] eff.nodes[k]).iid;
        pending.dom().contains(x) && differs(pending[x]) && pending[x].kind is Node && writes(
            eff.nodes[k],
            x,
            pending[x],
            system,
        )
    }) by {
        let i = lemma_pending_node(iids, pending, system, k);
        assert(iids.to_set().contains(iids[i]));
    }
    assert forall|k: int| 0 <= k < eff.edges.len() implies ({
        let x = (#[trigger] eff.edges[k]).iid;
        pending.dom().contains(x) && differs(pending[x]) && pending[x].kind is Edge && writes(
            eff.edges[k],
            x,
            pending[x],
            system,
        )
    }) by {
        let i = lemma_pending_edge(iids, pending, system, k);
        assert(iids.to_set().contains(iids[i]));
    }
}

/// The item takes something from the element that the row binds to its
/// variable.
pub open spec fn item_hits(item: RemoveItem, row: Map<Seq<char>, Iid>, x: Iid) -> bool {
    match item {
        RemoveItem::Prop { var, .. } => row.dom().contains(var@) && row[var@] == x,
        RemoveItem::Label { var, .. } => row.dom().contains(var@) && row[var@] == x,
    }
}

/// The element no longer has what the item takes.
pub open spec fn item_is_gone(item: RemoveItem, e: PendingView) -> bool {
    match item {
        RemoveItem::Prop { prop, .. } => !e.doc.dom().contains(prop@),
        RemoveItem::Label { label, .. } => !e.labels.contains(label@),
    }
}

proof fn lemma_removal(
    m: PendingMap,
    item: RemoveItem,
    row: Map<Seq<char>, Iid>,
    kinds: Map<Seq<char>, BindingKind>,
    paths: Seq<PathPattern>,
    visible: Visible,
    x: Iid,
    gone: RemoveItem,
)
    requires
        change_bound(
            m,
            remove_item_var_spec(item),
            remove_change(item),
            row,
            kinds,
            paths,
            visible,
        ) is Ok,
    ensures
        ({
            let w = change_bound(
                m,
                remove_item_var_spec(item),
                remove_change(item),
                row,
                kinds,
                paths,
                visible,
            )->Ok_0;
            &&& (m.dom().contains(x) ==> w.dom().contains(x) && w[x].original == m[x].original
                && w[x].kind == m[x].kind && w[x].src == m[x].src && w[x].dst == m[x].dst)
            &&& (m.dom().contains(x) && item_is_gone(gone, m[x]) ==> item_is_gone(gone, w[x]))
            &&& (item_hits(item, row, x) && w.dom().contains(x) ==> item_is_gone(item, w[x]))
            &&& (item_hits(item, row, x) && visible.lookup(kinds[remove_item_var_spec(item)], x)
                is Some ==> w.dom().contains(x))
            &&& (w.dom().contains(x) && !m.dom().contains(x) ==> visible.lookup(w[x].kind, x)
                == Some(w[x].original))
        }),
{
    let var = remove_item_var_spec(item);
    let c = remove_change(item);
    law_rows_change_what_they_bind(m, var, c, row, kinds, paths, visible);
    let w = change_bound(m, var, c, row, kinds, paths, visible)->Ok_0;
    if row.dom().contains(var) && row[var] == x {
        if m.dom().contains(x) {
            law_changes_do_what_they_say(m[x], c);
        } else if visible.lookup(kinds[var], x) is Some {
            let p = visible.lookup(kinds[var], x)->0;
            law_changes_do_what_they_say(
                PendingView {
                    kind: kinds[var],
                    original: p,
                    labels: p.labels,
                    doc: p.doc,
                    src: w[x].src,
                    dst: w[x].dst,
                },
                c,
            );
        }
    }
}

proof fn lemma_row_removes(
    m: PendingMap,
    row: Map<Seq<char>, Iid>,
    items: Seq<RemoveItem>,
    kinds: Map<Seq<char>, BindingKind>,
    paths: Seq<PathPattern>,
    visible: Visible,
    x: Iid,
    gone: RemoveItem,
)
    requires
        remove_row(m, row, items, kinds, paths, visible) is Ok,
    ensures
        ({
            let w = remove_row(m, row, items, kinds, paths, visible)->Ok_0;
            &&& (m.dom().contains(x) ==> w.dom().contains(x) && w[x].original == m[x].original
                && w[x].kind == m[x].kind)
            &&& (m.dom().contains(x) && item_is_gone(gone, m[x]) ==> item_is_gone(gone, w[x]))
            &&& (items.contains(gone) && item_hits(gone, row, x) && visible.lookup(
                kinds[remove_item_var_spec(gone)],
                x,
            ) is Some ==> w.dom().contains(x) && item_is_gone(gone, w[x]))
            &&& (w.dom().contains(x) && !m.dom().contains(x) ==> visible.lookup(w[x].kind, x)
                == Some(w[x].original))
        }),
    decreases items.len(),
{
    if items.len() > 0 {
        let front = items.drop_last();
        let item = items.last();
        lemma_row_removes(m, row, front, kinds, paths, visible, x, gone);
        let v = remove_row(m, row, front, kinds, paths, visible)->Ok_0;
        lemma_removal(v, item, row, kinds, paths, visible, x, gone);
        if items.contains(gone) && item != gone {
            let k = items.index_of(gone);
            assert(front[k] == gone);
            assert(front.contains(gone));
        }
    }
}

proof fn lemma_rows_remove(
    rows: Seq<Map<Seq<char>, Iid>>,
    items: Seq<RemoveItem>,
    kinds: Map<Seq<char>, BindingKind>,
    paths: Seq<PathPattern>,
    visible: Visible,
    x: Iid,
    gone: RemoveItem,
)
    requires
        try_fold(
            rows,
            Map::<Iid, PendingView>::empty(),
            |m: PendingMap, row: Map<Seq<char>, Iid>|
                remove_row(m, row, items, kinds, paths, visible),
        ) is Ok,
    ensures
        ({
            let w = try_fold(
                rows,
                Map::<Iid, PendingView>::empty(),
                |m: PendingMap, row: Map<Seq<char>, Iid>|
                    remove_row(m, row, items, kinds, paths, visible),
            )->Ok_0;
            &&& (items.contains(gone) && visible.lookup(kinds[remove_item_var_spec(gone)], x)
                is Some && (exists|i: int|
                0 <= i < rows.len() && item_hits(gone, #[trigger] rows[i], x)) ==> w.dom().contains(
                x,
            ) && item_is_gone(gone, w[x]))
            &&& (w.dom().contains(x) ==> visible.lookup(w[x].kind, x) == Some(w[x].original))
        }),
    decreases rows.len(),
{
    if rows.len() > 0 {
        let front = rows.drop_last();
        let row = rows.last();
        lemma_rows_remove(front, items, kinds, paths, visible, x, gone);
        let v = try_fold(
            front,
            Map::<Iid, PendingView>::empty(),
            |m: PendingMap, row: Map<Seq<char>, Iid>|
                remove_row(m, row, items, kinds, paths, visible),
        )->Ok_0;
        lemma_row_removes(v, row, items, kinds, paths, visible, x, gone);
        if exists|i: int| 0 <= i < rows.len() && item_hits(gone, #[trigger] rows[i], x) {
            let i = choose|i: int| 0 <= i < rows.len() && item_hits(gone, #[trigger] rows[i], x);
            if i < front.len() {
                assert(item_hits(gone, front[i], x));
            }
        }
    }
}

proof fn lemma_row_finite(
    m: PendingMap,
    row: Map<Seq<char>, Iid>,
    items: Seq<RemoveItem>,
    kinds: Map<Seq<char>, BindingKind>,
    paths: Seq<PathPattern>,
    visible: Visible,
)
    requires
        m.dom().finite(),
        remove_row(m, row, items, kinds, paths, visible) is Ok,
    ensures
        remove_row(m, row, items, kinds, paths, visible)->Ok_0.dom().finite(),
    decreases items.len(),
{
    if items.len() > 0 {
        lemma_row_finite(m, row, items.drop_last(), kinds, paths, visible);
    }
}

proof fn lemma_rows_finite(
    rows: Seq<Map<Seq<char>, Iid>>,
    items: Seq<RemoveItem>,
    kinds: Map<Seq<char>, BindingKind>,
    paths: Seq<PathPattern>,
    visible: Visible,
)
    requires
        try_fold(
            rows,
            Map::<Iid, PendingView>::empty(),
            |m: PendingMap, row: Map<Seq<char>, Iid>|
                remove_row(m, row, items, kinds, paths, visible),
        ) is Ok,
    ensures
        try_fold(
            rows,
            Map::<Iid, PendingView>::empty(),
            |m: PendingMap, row: Map<Seq<char>, Iid>|
                remove_row(m, row, items, kinds, paths, visible),
        )->Ok_0.dom().finite(),
    decreases rows.len(),
{
    if rows.len() > 0 {
        lemma_rows_finite(rows.drop_last(), items, kinds, paths, visible);
        let v = try_fold(
            rows.drop_last(),
            Map::<Iid, PendingView>::empty(),
            |m: PendingMap, row: Map<Seq<char>, Iid>|
                remove_row(m, row, items, kinds, paths, visible),
        )->Ok_0;
        lemma_row_finite(v, rows.last(), items, kinds, paths, visible);
    }
}

/// The event writes the element without what the item takes.
pub open spec fn written_without(v: EventView, x: Iid, item: RemoveItem) -> bool {
    v.iid == x && (v.op matches OpView::Put { labels, doc } && match item {
        RemoveItem::Prop { prop, .. } => !doc.dom().contains(prop@),
        RemoveItem::Label { label, .. } => !labels.contains(label@),
    })
}

/// What a `REMOVE` names is taken from every visible element that some row binds
/// to the item's variable: where the element had it, the element is written
/// anew without it.
pub proof fn law_removed_parts_are_gone(
    items: Seq<RemoveItem>,
    rows: Seq<Map<Seq<char>, Iid>>,
    kinds: Map<Seq<char>, BindingKind>,
    paths: Seq<PathPattern>,
    visible: Visible,
    system: Instant,
    item: RemoveItem,
    i: int,
    x: Iid,
)
    requires
        remove_spec(items, rows, kinds, paths, visible, system) is Ok,
        items.contains(item),
        0 <= i < rows.len(),
        item_hits(item, rows[i], x),
        visible.lookup(kinds[remove_item_var_spec(item)], x) is Some,
        match item {
            RemoveItem::Prop { prop, .. } => forall|k: BindingKind|
                #![trigger visible.lookup(k, x)]
                visible.lookup(k, x) matches Some(p) ==> p.doc.dom().contains(prop@),
            RemoveItem::Label { label, .. } => forall|k: BindingKind|
                #![trigger visible.lookup(k, x)]
                visible.lookup(k, x) matches Some(p) ==> p.labels.contains(label@),
        },
    ensures
        ({
            let eff = remove_spec(items, rows, kinds, paths, visible, system)->Ok_0;
            (exists|k: int|
                0 <= k < eff.nodes.len() && written_without(#[trigger] eff.nodes[k], x, item)) || (
            exists|k: int|
                0 <= k < eff.edges.len() && written_without(#[trigger] eff.edges[k], x, item))
        }),
{
    let pending = try_fold(
        rows,
        Map::<Iid, PendingView>::empty(),
        |m: PendingMap, row: Map<Seq<char>, Iid>|
            remove_row(m, row, items, kinds, paths, visible),
    )->Ok_0;
    let eff = remove_spec(items, rows, kinds, paths, visible, system)->Ok_0;
    lemma_rows_remove(rows, items, kinds, paths, visible, x, item);
    lemma_rows_finite(rows, items, kinds, paths, visible);
    law_changed_elements_are_written(pending, system);
    let e = pending[x];
    assert(pending.dom().contains(x) && item_is_gone(item, e));
    assert(visible.lookup(e.kind, x) == Some(e.original));
    assert(differs(e));
    if e.kind is Node {
        let k = choose|k: int|
            0 <= k < eff.nodes.len() && writes(#[trigger] eff.nodes[k], x, pending[x], system);
        assert(written_without(eff.nodes[k], x, item));
    } else {
        let k = choose|k: int|
            0 <= k < eff.edges.len() && writes(#[trigger] eff.edges[k], x, pending[x], system);
        assert(written_without(eff.edges[k], x, item));
    }
}

} // verus!
