//! What is visible of the graph where a statement reads it: the embedding
//! program reads these from the merged index and hands them in.

use crate::bindings::BindingKind;
use crate::doc::{Doc, DocView};
use crate::sorted::SortedMap;
use crate::text::views;
use crate::types::Iid;
use vstd::prelude::*;

verus! {

/// The labels and the document of a visible element.
#[derive(Debug)]
pub struct Payload {
    pub labels: Vec<String>,
    pub doc: Doc,
}

/// What a payload holds.
#[verifier::ext_equal]
pub struct PayloadView {
    pub labels: Seq<Seq<char>>,
    pub doc: DocView,
}

impl View for Payload {
    type V = PayloadView;

    open spec fn view(&self) -> PayloadView {
        PayloadView { labels: views(self.labels@), doc: self.doc@ }
    }
}

/// The visible elements that were looked up; an element that is not here is
/// not visible.
pub struct Visible {
    pub nodes: SortedMap<Iid, Payload>,
    pub edges: SortedMap<Iid, Payload>,
}

impl Visible {
    pub open spec fn wf(&self) -> bool {
        &&& self.nodes.wf()
        &&& self.edges.wf()
        &&& forall|i: Iid| #[trigger] self.nodes@.dom().contains(i) ==> self.nodes@[i].doc.wf()
        &&& forall|i: Iid| #[trigger] self.edges@.dom().contains(i) ==> self.edges@[i].doc.wf()
    }

    /// The payload of an element, if it is visible.
    pub open spec fn lookup(&self, kind: BindingKind, iid: Iid) -> Option<PayloadView> {
        let table = match kind {
            BindingKind::Node => self.nodes@,
            BindingKind::Edge => self.edges@,
        };
        if table.dom().contains(iid) {
            Some(table[iid]@)
        } else {
            None
        }
    }

    pub fn new() -> (r: Visible)
        ensures
            r.wf(),
            forall|k: BindingKind, i: Iid| r.lookup(k, i) is None,
    {
        Visible { nodes: SortedMap::new(), edges: SortedMap::new() }
    }

    pub fn get(&self, kind: BindingKind, iid: Iid) -> (r: Option<&Payload>)
        requires
            self.wf(),
        ensures
            match r {
                Some(p) => p.doc.wf() && self.lookup(kind, iid) == Some(p@),
                None => self.lookup(kind, iid) is None,
            },
    {
        match kind {
            BindingKind::Node => self.nodes.get(&iid),
            BindingKind::Edge => self.edges.get(&iid),
        }
    }

    /// Records that an element is visible with this payload.
    pub fn put(&mut self, kind: BindingKind, iid: Iid, payload: Payload)
        requires
            old(self).wf(),
            payload.doc.wf(),
        ensures
            final(self).wf(),
            forall|k: BindingKind, i: Iid|
                final(self).lookup(k, i) == (if k == kind && i == iid {
                    Some(payload@)
                } else {
                    old(self).lookup(k, i)
                }),
    {
        match kind {
            BindingKind::Node => {
                self.nodes.insert(iid, payload);
            },
            BindingKind::Edge => {
                self.edges.insert(iid, payload);
            },
        }
    }
}

/// The side from which an edge is followed: from its source, or from its
/// destination.
#[derive(Clone, Copy, Debug, PartialEq, Eq, Structural)]
pub enum AdjDirection {
    Out,
    In,
}

/// One edge as seen from one of its ends.
#[derive(Clone, Copy, Debug, PartialEq, Eq, Structural)]
pub struct AdjEntry {
    pub node: Iid,
    pub neighbor: Iid,
    pub edge: Iid,
}

impl AdjEntry {
    /// Source and destination, where the entry was found by following `dir`.
    pub open spec fn ends(self, dir: AdjDirection) -> (Iid, Iid) {
        match dir {
            AdjDirection::Out => (self.node, self.neighbor),
            AdjDirection::In => (self.neighbor, self.node),
        }
    }
}

/// The visible edges at the nodes that were looked up, whatever their label; a
/// node that is not here has none.
pub struct IncidentEdges {
    pub out: SortedMap<Iid, Vec<AdjEntry>>,
    pub into: SortedMap<Iid, Vec<AdjEntry>>,
}

impl IncidentEdges {
    pub open spec fn wf(&self) -> bool {
        self.out.wf() && self.into.wf()
    }

    pub open spec fn of(&self, dir: AdjDirection, node: Iid) -> Seq<AdjEntry> {
        let table = match dir {
            AdjDirection::Out => self.out@,
            AdjDirection::In => self.into@,
        };
        if table.dom().contains(node) {
            table[node]@
        } else {
            Seq::empty()
        }
    }

    pub fn new() -> (r: IncidentEdges)
        ensures
            r.wf(),
            forall|d: AdjDirection, n: Iid| r.of(d, n) == Seq::<AdjEntry>::empty(),
    {
        IncidentEdges { out: SortedMap::new(), into: SortedMap::new() }
    }

    pub fn put(&mut self, dir: AdjDirection, node: Iid, entries: Vec<AdjEntry>)
        requires
            old(self).wf(),
        ensures
            final(self).wf(),
            forall|d: AdjDirection, n: Iid|
                final(self).of(d, n) == (if d == dir && n == node {
                    entries@
                } else {
                    old(self).of(d, n)
                }),
    {
        match dir {
            AdjDirection::Out => {
                self.out.insert(node, entries);
            },
            AdjDirection::In => {
                self.into.insert(node, entries);
            },
        }
    }
}

} // verus!
