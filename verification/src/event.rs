//! Bitemporal events.

use crate::doc::{Doc, DocView};
use crate::text::{clone_texts, views};
use crate::types::{Iid, Instant};
use vstd::prelude::*;

verus! {

/// What an event does to its entity.
#[derive(Debug)]
pub enum Op {
    Put { labels: Vec<String>, doc: Doc },
    Delete,
    Erase,
}

/// What an operation holds.
pub enum OpView {
    Put { labels: Seq<Seq<char>>, doc: DocView },
    Delete,
    Erase,
}

impl View for Op {
    type V = OpView;

    open spec fn view(&self) -> OpView {
        match self {
            Op::Put { labels, doc } => OpView::Put { labels: views(labels@), doc: doc@ },
            Op::Delete => OpView::Delete,
            Op::Erase => OpView::Erase,
        }
    }
}

impl Op {
    pub open spec fn wf(&self) -> bool {
        self matches Op::Put { doc, .. } ==> doc.wf()
    }

    pub fn clone_op(&self) -> (r: Op)
        requires
            self.wf(),
        ensures
            r.wf(),
            r@ == self@,
    {
        match self {
            Op::Put { labels, doc } => Op::Put { labels: clone_texts(labels), doc: doc.clone_doc() },
            Op::Delete => Op::Delete,
            Op::Erase => Op::Erase,
        }
    }
}

/// One recorded change of a node or an edge. An edge's event names its two
/// ends.
#[derive(Debug)]
pub struct Event {
    pub iid: Iid,
    pub system_from: Instant,
    pub valid_from: Instant,
    pub valid_to: Instant,
    pub src: Option<Iid>,
    pub dst: Option<Iid>,
    pub op: Op,
}

/// What an event holds.
pub struct EventView {
    pub iid: Iid,
    pub system_from: Instant,
    pub valid_from: Instant,
    pub valid_to: Instant,
    pub src: Option<Iid>,
    pub dst: Option<Iid>,
    pub op: OpView,
}

impl View for Event {
    type V = EventView;

    open spec fn view(&self) -> EventView {
        EventView {
            iid: self.iid,
            system_from: self.system_from,
            valid_from: self.valid_from,
            valid_to: self.valid_to,
            src: self.src,
            dst: self.dst,
            op: self.op@,
        }
    }
}

impl Event {
    pub open spec fn wf(&self) -> bool {
        self.op.wf()
    }

    pub fn clone_event(&self) -> (r: Event)
        requires
            self.wf(),
        ensures
            r.wf(),
            r@ == self@,
    {
        Event {
            iid: self.iid,
            system_from: self.system_from,
            valid_from: self.valid_from,
            valid_to: self.valid_to,
            src: self.src,
            dst: self.dst,
            op: self.op.clone_op(),
        }
    }
}

/// Every event of a list is well formed.
pub open spec fn events_wf(events: Seq<Event>) -> bool {
    forall|i: int| 0 <= i < events.len() ==> (#[trigger] events[i]).wf()
}

/// A copy of a list of events.
pub fn clone_events(events: &Vec<Event>) -> (r: Vec<Event>)
    requires
        events_wf(events@),
    ensures
        events_wf(r@),
        views(r@) == views(events@),
{
    let mut r: Vec<Event> = Vec::new();
    let mut i: usize = 0;
    while i < events.len()
        invariant
            i <= events.len(),
            r.len() == i,
            events_wf(events@),
            events_wf(r@),
            forall|k: int| 0 <= k < i ==> (#[trigger] r@[k])@ == events@[k]@,
        decreases events.len() - i,
    {
        r.push(events[i].clone_event());
        i += 1;
    }
    assert(views(r@) =~= views(events@));
    r
}

} // verus!
