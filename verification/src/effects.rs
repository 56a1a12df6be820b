//! The effects of a resolved mutation.

use crate::doc::{property_names, side_effect_property_count, Doc, DocView};
use crate::event::{events_wf, Event, EventView};
use crate::sorted::{extend_set, union_into, SortedSet};
use crate::text::{lemma_views_push, views};
use crate::types::Instant;
use vstd::prelude::*;

verus! {

/// What a transaction did, in counts. A count stays at the largest number it
/// can hold.
#[derive(Clone, Copy, Debug, PartialEq, Eq, Structural)]
pub struct SideEffects {
    pub nodes_created: usize,
    pub nodes_deleted: usize,
    pub relationships_created: usize,
    pub relationships_deleted: usize,
    pub properties_set: usize,
    pub properties_removed: usize,
    pub labels_added: usize,
    pub labels_removed: usize,
}

/// No effect at all.
pub open spec fn no_side_effects() -> SideEffects {
    SideEffects {
        nodes_created: 0,
        nodes_deleted: 0,
        relationships_created: 0,
        relationships_deleted: 0,
        properties_set: 0,
        properties_removed: 0,
        labels_added: 0,
        labels_removed: 0,
    }
}

impl Default for SideEffects {
    fn default() -> (r: SideEffects)
        ensures
            r == no_side_effects(),
    {
        SideEffects {
            nodes_created: 0,
            nodes_deleted: 0,
            relationships_created: 0,
            relationships_deleted: 0,
            properties_set: 0,
            properties_removed: 0,
            labels_added: 0,
            labels_removed: 0,
        }
    }
}

impl SideEffects {
    /// Whether nothing was done.
    pub fn is_empty(self) -> (r: bool)
        ensures
            r == (self == no_side_effects()),
    {
        self == SideEffects::default()
    }
}

/// The receipt of a transaction.
#[derive(Debug)]
pub struct TxReceipt {
    pub tx_id: u64,
    pub system_time: Instant,
    pub side_effects: SideEffects,
    /// Who submitted the transaction.
    pub user: String,
}

impl TxReceipt {
    pub fn clone_receipt(&self) -> (r: TxReceipt)
        ensures
            r == *self,
    {
        TxReceipt {
            tx_id: self.tx_id,
            system_time: self.system_time,
            side_effects: self.side_effects,
            user: self.user.clone(),
        }
    }
}

/// A change of the graph catalog.
#[derive(Debug)]
pub enum CatalogOp {
    CreateGraph(String),
    DropGraph(String),
}

/// What a catalog change holds.
pub enum CatalogOpView {
    CreateGraph(Seq<char>),
    DropGraph(Seq<char>),
}

impl View for CatalogOp {
    type V = CatalogOpView;

    open spec fn view(&self) -> CatalogOpView {
        match self {
            CatalogOp::CreateGraph(n) => CatalogOpView::CreateGraph(n@),
            CatalogOp::DropGraph(n) => CatalogOpView::DropGraph(n@),
        }
    }
}

/// A resolved mutation's effect events, by table, with its catalog changes and
/// its tally.
pub struct Effects {
    pub nodes: Vec<Event>,
    pub edges: Vec<Event>,
    pub catalog_ops: Vec<CatalogOp>,
    pub side_effects: SideEffects,
    pub labels_added: SortedSet<String>,
    pub labels_removed: SortedSet<String>,
}

/// What a mutation's effects hold.
#[verifier::ext_equal]
pub struct EffectsView {
    pub nodes: Seq<EventView>,
    pub edges: Seq<EventView>,
    pub catalog_ops: Seq<CatalogOpView>,
    pub side_effects: SideEffects,
    pub labels_added: Set<Seq<char>>,
    pub labels_removed: Set<Seq<char>>,
}

/// `n`, or the largest `usize` where `n` is larger.
pub open spec fn sat(n: int) -> usize {
    if n > usize::MAX {
        usize::MAX
    } else {
        n as usize
    }
}

/// The number of properties in a document.
pub open spec fn property_count(doc: DocView) -> int {
    property_names(doc).len() as int
}

impl EffectsView {
    pub open spec fn empty() -> EffectsView {
        EffectsView {
            nodes: Seq::empty(),
            edges: Seq::empty(),
            catalog_ops: Seq::empty(),
            side_effects: no_side_effects(),
            labels_added: Set::empty(),
            labels_removed: Set::empty(),
        }
    }

    pub open spec fn push_node(self, e: EventView) -> EffectsView {
        EffectsView { nodes: self.nodes.push(e), ..self }
    }

    pub open spec fn push_edge(self, e: EventView) -> EffectsView {
        EffectsView { edges: self.edges.push(e), ..self }
    }

    pub open spec fn push_catalog(self, op: CatalogOpView) -> EffectsView {
        EffectsView { catalog_ops: self.catalog_ops.push(op), ..self }
    }

    /// `labels` counted as added.
    pub open spec fn added_labels(self, labels: Seq<Seq<char>>) -> EffectsView {
        let all = self.labels_added.union(labels.to_set());
        EffectsView {
            labels_added: all,
            side_effects: SideEffects { labels_added: all.len() as usize, ..self.side_effects },
            ..self
        }
    }

    /// `labels` counted as removed.
    pub open spec fn removed_labels(self, labels: Seq<Seq<char>>) -> EffectsView {
        let all = self.labels_removed.union(labels.to_set());
        EffectsView {
            labels_removed: all,
            side_effects: SideEffects { labels_removed: all.len() as usize, ..self.side_effects },
            ..self
        }
    }

    pub open spec fn properties(self, set: int, removed: int) -> EffectsView {
        EffectsView {
            side_effects: SideEffects {
                properties_set: sat(self.side_effects.properties_set + set),
                properties_removed: sat(self.side_effects.properties_removed + removed),
                ..self.side_effects
            },
            ..self
        }
    }

    /// One node created with these labels and this document.
    pub open spec fn node_created(self, labels: Seq<Seq<char>>, doc: DocView) -> EffectsView {
        EffectsView {
            side_effects: SideEffects {
                nodes_created: sat(self.side_effects.nodes_created + 1),
                ..self.side_effects
            },
            ..self
        }.properties(property_count(doc), 0).added_labels(labels)
    }

    pub open spec fn edge_created(self, doc: DocView) -> EffectsView {
        EffectsView {
            side_effects: SideEffects {
                relationships_created: sat(self.side_effects.relationships_created + 1),
                ..self.side_effects
            },
            ..self
        }.properties(property_count(doc), 0)
    }

    pub open spec fn node_deleted(self, labels: Seq<Seq<char>>, doc: DocView) -> EffectsView {
        EffectsView {
            side_effects: SideEffects {
                nodes_deleted: sat(self.side_effects.nodes_deleted + 1),
                ..self.side_effects
            },
            ..self
        }.properties(0, property_count(doc)).removed_labels(labels)
    }

    pub open spec fn edge_deleted(self, doc: DocView) -> EffectsView {
        EffectsView {
            side_effects: SideEffects {
                relationships_deleted: sat(self.side_effects.relationships_deleted + 1),
                ..self.side_effects
            },
            ..self
        }.properties(0, property_count(doc))
    }

    /// The effects of both, `self` first. Labels are counted once over both.
    pub open spec fn merged(self, other: EffectsView) -> EffectsView {
        let added = self.labels_added.union(other.labels_added);
        let removed = self.labels_removed.union(other.labels_removed);
        let a = self.side_effects;
        let b = other.side_effects;
        EffectsView {
            nodes: self.nodes + other.nodes,
            edges: self.edges + other.edges,
            catalog_ops: self.catalog_ops + other.catalog_ops,
            side_effects: SideEffects {
                nodes_created: sat(a.nodes_created + b.nodes_created),
                nodes_deleted: sat(a.nodes_deleted + b.nodes_deleted),
                relationships_created: sat(a.relationships_created + b.relationships_created),
                relationships_deleted: sat(a.relationships_deleted + b.relationships_deleted),
                properties_set: sat(a.properties_set + b.properties_set),
                properties_removed: sat(a.properties_removed + b.properties_removed),
                labels_added: added.len() as usize,
                labels_removed: removed.len() as usize,
            },
            labels_added: added,
            labels_removed: removed,
        }
    }
}

impl View for Effects {
    type V = EffectsView;

    open spec fn view(&self) -> EffectsView {
        EffectsView {
            nodes: views(self.nodes@),
            edges: views(self.edges@),
            catalog_ops: views(self.catalog_ops@),
            side_effects: self.side_effects,
            labels_added: self.labels_added@,
            labels_removed: self.labels_removed@,
        }
    }
}

impl Effects {
    pub open spec fn wf(&self) -> bool {
        &&& events_wf(self.nodes@)
        &&& events_wf(self.edges@)
        &&& self.labels_added.wf()
        &&& self.labels_removed.wf()
    }

    pub fn new() -> (r: Effects)
        ensures
            r.wf(),
            r@ == EffectsView::empty(),
    {
        let r = Effects {
            nodes: Vec::new(),
            edges: Vec::new(),
            catalog_ops: Vec::new(),
            side_effects: SideEffects::default(),
            labels_added: SortedSet::new(),
            labels_removed: SortedSet::new(),
        };
        assert(r@ =~= EffectsView::empty());
        r
    }

    pub fn push_node(&mut self, event: Event)
        requires
            old(self).wf(),
            event.wf(),
        ensures
            final(self).wf(),
            final(self)@ == old(self)@.push_node(event@),
    {
        proof {
            lemma_views_push(self.nodes@, event);
        }
        self.nodes.push(event);
    }

    pub fn push_edge(&mut self, event: Event)
        requires
            old(self).wf(),
            event.wf(),
        ensures
            final(self).wf(),
            final(self)@ == old(self)@.push_edge(event@),
    {
        proof {
            lemma_views_push(self.edges@, event);
        }
        self.edges.push(event);
    }

    pub fn push_catalog(&mut self, op: CatalogOp)
        requires
            old(self).wf(),
        ensures
            final(self).wf(),
            final(self)@ == old(self)@.push_catalog(op@),
    {
        proof {
            lemma_views_push(self.catalog_ops@, op);
        }
        self.catalog_ops.push(op);
    }

    pub fn record_labels_added(&mut self, labels: &Vec<String>)
        requires
            old(self).wf(),
        ensures
            final(self).wf(),
            final(self)@ == old(self)@.added_labels(views(labels@)),
    {
        extend_set(&mut self.labels_added, labels);
        self.side_effects.labels_added = self.labels_added.len();
    }

    pub fn record_labels_removed(&mut self, labels: &Vec<String>)
        requires
            old(self).wf(),
        ensures
            final(self).wf(),
            final(self)@ == old(self)@.removed_labels(views(labels@)),
    {
        extend_set(&mut self.labels_removed, labels);
        self.side_effects.labels_removed = self.labels_removed.len();
    }

    pub fn record_properties(&mut self, set: usize, removed: usize)
        requires
            old(self).wf(),
        ensures
            final(self).wf(),
            final(self)@ == old(self)@.properties(set as int, removed as int),
    {
        self.side_effects.properties_set = self.side_effects.properties_set.saturating_add(set);
        self.side_effects.properties_removed = self.side_effects.properties_removed.saturating_add(
            removed,
        );
    }

    pub fn record_node_create(&mut self, labels: &Vec<String>, doc: &Doc)
        requires
            old(self).wf(),
            doc.wf(),
        ensures
            final(self).wf(),
            final(self)@ == old(self)@.node_created(views(labels@), doc@),
    {
        self.side_effects.nodes_created = self.side_effects.nodes_created.saturating_add(1);
        self.record_properties(side_effect_property_count(doc), 0);
        self.record_labels_added(labels);
    }

    pub fn record_edge_create(&mut self, doc: &Doc)
        requires
            old(self).wf(),
            doc.wf(),
        ensures
            final(self).wf(),
            final(self)@ == old(self)@.edge_created(doc@),
    {
        self.side_effects.relationships_created =
            self.side_effects.relationships_created.saturating_add(1);
        self.record_properties(side_effect_property_count(doc), 0);
    }

    pub fn record_node_delete(&mut self, labels: &Vec<String>, doc: &Doc)
        requires
            old(self).wf(),
            doc.wf(),
        ensures
            final(self).wf(),
            final(self)@ == old(self)@.node_deleted(views(labels@), doc@),
    {
        self.side_effects.nodes_deleted = self.side_effects.nodes_deleted.saturating_add(1);
        self.record_properties(0, side_effect_property_count(doc));
        self.record_labels_removed(labels);
    }

    pub fn record_edge_delete(&mut self, doc: &Doc)
        requires
            old(self).wf(),
            doc.wf(),
        ensures
            final(self).wf(),
            final(self)@ == old(self)@.edge_deleted(doc@),
    {
        self.side_effects.relationships_deleted =
            self.side_effects.relationships_deleted.saturating_add(1);
        self.record_properties(0, side_effect_property_count(doc));
    }

    /// Adds the effects of `other` after those of `self`.
    pub fn merge(&mut self, other: Effects)
        requires
            old(self).wf(),
            other.wf(),
        ensures
            final(self).wf(),
            final(self)@ == old(self)@.merged(other@),
    {
        let ghost before = self@;
        let mut other = other;
        let ghost added = other@;
        proof {
            crate::text::lemma_views_add(self.nodes@, other.nodes@);
            crate::text::lemma_views_add(self.edges@, other.edges@);
            crate::text::lemma_views_add(self.catalog_ops@, other.catalog_ops@);
        }
        self.nodes.append(&mut other.nodes);
        self.edges.append(&mut other.edges);
        self.catalog_ops.append(&mut other.catalog_ops);
        let s = other.side_effects;
        self.side_effects.nodes_created =
            self.side_effects.nodes_created.saturating_add(s.nodes_created);
        self.side_effects.nodes_deleted =
            self.side_effects.nodes_deleted.saturating_add(s.nodes_deleted);
        self.side_effects.relationships_created =
            self.side_effects.relationships_created.saturating_add(s.relationships_created);
        self.side_effects.relationships_deleted =
            self.side_effects.relationships_deleted.saturating_add(s.relationships_deleted);
        self.side_effects.properties_set =
            self.side_effects.properties_set.saturating_add(s.properties_set);
        self.side_effects.properties_removed =
            self.side_effects.properties_removed.saturating_add(s.properties_removed);
        union_into(&mut self.labels_added, &other.labels_added);
        union_into(&mut self.labels_removed, &other.labels_removed);
        self.side_effects.labels_added = self.labels_added.len();
        self.side_effects.labels_removed = self.labels_removed.len();
        assert(self@ =~= before.merged(added));
    }
}

/// Merged effects hold every event and every change of the catalog of both, the
/// first's before the second's, and nothing else; the counts of elements and
/// properties add up; a label counts once however often it was added or removed.
pub proof fn law_merged_effects_hold_both(a: EffectsView, b: EffectsView, k: int, l: Seq<char>)
    ensures
        ({
            let m = a.merged(b);
            &&& m.nodes.len() == a.nodes.len() + b.nodes.len()
            &&& (0 <= k < a.nodes.len() ==> m.nodes[k] == a.nodes[k])
            &&& (0 <= k < b.nodes.len() ==> m.nodes[a.nodes.len() + k] == b.nodes[k])
            &&& m.edges.len() == a.edges.len() + b.edges.len()
            &&& (0 <= k < a.edges.len() ==> m.edges[k] == a.edges[k])
            &&& (0 <= k < b.edges.len() ==> m.edges[a.edges.len() + k] == b.edges[k])
            &&& m.catalog_ops.len() == a.catalog_ops.len() + b.catalog_ops.len()
            &&& (0 <= k < a.catalog_ops.len() ==> m.catalog_ops[k] == a.catalog_ops[k])
            &&& (0 <= k < b.catalog_ops.len() ==> m.catalog_ops[a.catalog_ops.len() + k]
                == b.catalog_ops[k])
            &&& (m.labels_added.contains(l) <==> a.labels_added.contains(l)
                || b.labels_added.contains(l))
            &&& (m.labels_removed.contains(l) <==> a.labels_removed.contains(l)
                || b.labels_removed.contains(l))
            &&& (m.labels_added.len() <= usize::MAX ==> m.side_effects.labels_added
                == m.labels_added.len())
            &&& (m.labels_removed.len() <= usize::MAX ==> m.side_effects.labels_removed
                == m.labels_removed.len())
            &&& (a.side_effects.nodes_created + b.side_effects.nodes_created <= usize::MAX
                ==> m.side_effects.nodes_created == a.side_effects.nodes_created
                + b.side_effects.nodes_created)
            &&& (a.side_effects.nodes_deleted + b.side_effects.nodes_deleted <= usize::MAX
                ==> m.side_effects.nodes_deleted == a.side_effects.nodes_deleted
                + b.side_effects.nodes_deleted)
            &&& (a.side_effects.relationships_created + b.side_effects.relationships_created
                <= usize::MAX ==> m.side_effects.relationships_created
                == a.side_effects.relationships_created + b.side_effects.relationships_created)
            &&& (a.side_effects.relationships_deleted + b.side_effects.relationships_deleted
                <= usize::MAX ==> m.side_effects.relationships_deleted
                == a.side_effects.relationships_deleted + b.side_effects.relationships_deleted)
            &&& (a.side_effects.properties_set + b.side_effects.properties_set <= usize::MAX
                ==> m.side_effects.properties_set == a.side_effects.properties_set
                + b.side_effects.properties_set)
            &&& (a.side_effects.properties_removed + b.side_effects.properties_removed
                <= usize::MAX ==> m.side_effects.properties_removed
                == a.side_effects.properties_removed + b.side_effects.properties_removed)
        }),
{
}

/// Both hold the same events and the same changes of the catalog.
pub open spec fn same_events(a: EffectsView, b: EffectsView) -> bool {
    a.nodes == b.nodes && a.edges == b.edges && a.catalog_ops == b.catalog_ops
}

/// Creating an element counts it as created and each of its properties as set;
/// a node's labels become added ones. Deleting it counts the other way. No event
/// and no other count changes.
pub proof fn law_elements_are_counted(
    e: EffectsView,
    labels: Seq<Seq<char>>,
    doc: DocView,
    l: Seq<char>,
)
    requires
        e.side_effects.nodes_created < usize::MAX,
        e.side_effects.nodes_deleted < usize::MAX,
        e.side_effects.relationships_created < usize::MAX,
        e.side_effects.relationships_deleted < usize::MAX,
        e.side_effects.properties_set + property_count(doc) <= usize::MAX,
        e.side_effects.properties_removed + property_count(doc) <= usize::MAX,
    ensures
        ({
            let s = e.side_effects;
            let n = property_count(doc);
            let made = e.node_created(labels, doc);
            let gone = e.node_deleted(labels, doc);
            &&& same_events(made, e)
            &&& made.side_effects == (SideEffects {
                nodes_created: (s.nodes_created + 1) as usize,
                properties_set: (s.properties_set + n) as usize,
                labels_added: made.labels_added.len() as usize,
                ..s
            })
            &&& made.labels_removed == e.labels_removed
            &&& (made.labels_added.contains(l) <==> e.labels_added.contains(l) || labels.contains(
                l,
            ))
            &&& same_events(gone, e)
            &&& gone.side_effects == (SideEffects {
                nodes_deleted: (s.nodes_deleted + 1) as usize,
                properties_removed: (s.properties_removed + n) as usize,
                labels_removed: gone.labels_removed.len() as usize,
                ..s
            })
            &&& gone.labels_added == e.labels_added
            &&& (gone.labels_removed.contains(l) <==> e.labels_removed.contains(l)
                || labels.contains(l))
            &&& e.edge_created(doc) == (EffectsView {
                side_effects: SideEffects {
                    relationships_created: (s.relationships_created + 1) as usize,
                    properties_set: (s.properties_set + n) as usize,
                    ..s
                },
                ..e
            })
            &&& e.edge_deleted(doc) == (EffectsView {
                side_effects: SideEffects {
                    relationships_deleted: (s.relationships_deleted + 1) as usize,
                    properties_removed: (s.properties_removed + n) as usize,
                    ..s
                },
                ..e
            })
        }),
{
}

} // verus!
