//! The effects of the statements of a program that were resolved already, as the
//! statements after them see them.

use crate::effects::Effects;
use crate::error::{EngineError, ErrorView, IndexErrorView};
use crate::event::{events_wf, Event};
use crate::fold::{lemma_try_fold_all, lemma_try_fold_fails, lemma_try_fold_step, try_fold};
use crate::state::{last_time, LiveTable, TableKind};
use crate::text::views;
use crate::types::Instant;
use vstd::prelude::*;

verus! {

pub struct Overlay {
    pub nodes: LiveTable,
    pub edges: LiveTable,
}

/// A tail with more events, each of which must not be earlier than the last.
pub open spec fn tail_with(last: Option<Instant>, e: Event) -> Result<Option<Instant>, ErrorView> {
    match last {
        Some(t) => if e.system_from.us < t.us {
            Err(
                ErrorView::Index(
                    IndexErrorView::OutOfOrderEvent { last: t, got: e.system_from },
                ),
            )
        } else {
            Ok(Some(e.system_from))
        },
        None => Ok(Some(e.system_from)),
    }
}

/// Whether events can follow a tail, and when its last is then.
pub open spec fn follows(last: Option<Instant>, events: Seq<Event>) -> Result<
    Option<Instant>,
    ErrorView,
> {
    try_fold(events, last, |last: Option<Instant>, e: Event| tail_with(last, e))
}

fn append_all(table: &mut LiveTable, events: &Vec<Event>) -> (r: Result<(), EngineError>)
    requires
        old(table).wf(),
        events_wf(events@),
    ensures
        final(table).wf(),
        match follows(last_time(old(table)@), events@) {
            Ok(_) => r is Ok && views(final(table)@) == views(old(table)@) + views(events@),
            Err(e) => r matches Err(err) && err@ == e,
        },
{
    let ghost before = views(table@);
    let ghost start = last_time(table@);
    let ghost step = |last: Option<Instant>, e: Event| tail_with(last, e);
    proof {
        lemma_try_fold_all(events@, start, step);
        assert(before + views(events@).subrange(0, 0) =~= before);
    }
    let mut i: usize = 0;
    while i < events.len()
        invariant
            i <= events.len(),
            table.wf(),
            events_wf(events@),
            start == last_time(old(table)@),
            step == (|last: Option<Instant>, e: Event| tail_with(last, e)),
            views(table@) == before + views(events@).subrange(0, i as int),
            try_fold(events@.subrange(0, i as int), start, step) == Ok::<
                Option<Instant>,
                ErrorView,
            >(last_time(table@)),
        decreases events.len() - i,
    {
        proof {
            lemma_try_fold_step(events@, start, step, i as int);
            if try_fold(events@.subrange(0, i + 1), start, step) is Err {
                lemma_try_fold_fails(events@, start, step, i + 1);
            }
        }
        let ghost so_far = table@;
        let copy = events[i].clone_event();
        let ghost c = copy;
        match table.append(copy) {
            Ok(()) => {
                proof {
                    assert(table@ == so_far.push(c));
                    assert(views(table@) =~= views(so_far).push(c@));
                    assert(views(events@).subrange(0, i + 1) =~= views(events@).subrange(
                        0,
                        i as int,
                    ).push(c@));
                    assert(before + views(events@).subrange(0, i + 1) =~= (before + views(
                        events@,
                    ).subrange(0, i as int)).push(c@));
                }
            },
            Err(e) => {
                return Err(e);
            },
        }
        i += 1;
    }
    proof {
        lemma_try_fold_all(events@, start, step);
        assert(views(events@).subrange(0, events@.len() as int) =~= views(events@));
    }
    Ok(())
}

impl Overlay {
    pub open spec fn wf(&self) -> bool {
        self.nodes.wf() && self.edges.wf()
    }

    pub fn new() -> (r: Overlay)
        ensures
            r.wf(),
            r.nodes@ == Seq::<Event>::empty(),
            r.edges@ == Seq::<Event>::empty(),
    {
        Overlay { nodes: LiveTable::new(), edges: LiveTable::new() }
    }

    pub fn table(&self, kind: TableKind) -> (r: &LiveTable)
        ensures
            *r == (match kind {
                TableKind::Nodes => self.nodes,
                TableKind::Edges => self.edges,
            }),
    {
        match kind {
            TableKind::Nodes => &self.nodes,
            TableKind::Edges => &self.edges,
        }
    }

    /// Adds the effects of a statement.
    pub fn append_effects_to_overlay(&mut self, effects: &Effects) -> (r: Result<(), EngineError>)
        requires
            old(self).wf(),
            events_wf(effects.nodes@),
            events_wf(effects.edges@),
        ensures
            final(self).wf(),
            match follows(last_time(old(self).nodes@), effects.nodes@) {
                Err(e) => r matches Err(err) && err@ == e,
                Ok(_) => match follows(last_time(old(self).edges@), effects.edges@) {
                    Err(e) => r matches Err(err) && err@ == e,
                    Ok(_) => {
                        &&& r is Ok
                        &&& views(final(self).nodes@) == views(old(self).nodes@) + views(
                            effects.nodes@,
                        )
                        &&& views(final(self).edges@) == views(old(self).edges@) + views(
                            effects.edges@,
                        )
                    },
                },
            },
    {
        match append_all(&mut self.nodes, &effects.nodes) {
            Ok(()) => {},
            Err(e) => {
                return Err(e);
            },
        }
        append_all(&mut self.edges, &effects.edges)
    }
}

/// The effects of one transaction bear one time, so they always follow.
pub proof fn law_one_time_always_follows(last: Option<Instant>, events: Seq<Event>, at: Instant)
    requires
        last matches Some(t) ==> t == at,
        forall|i: int| 0 <= i < events.len() ==> (#[trigger] events[i]).system_from == at,
    ensures
        follows(last, events) is Ok,
        events.len() > 0 ==> follows(last, events) == Ok::<Option<Instant>, ErrorView>(Some(at)),
        events.len() == 0 ==> follows(last, events) == Ok::<Option<Instant>, ErrorView>(last),
    decreases events.len(),
{
    let step = |last: Option<Instant>, e: Event| tail_with(last, e);
    if events.len() > 0 {
        let n = events.len() - 1;
        let front = events.drop_last();
        assert forall|i: int| 0 <= i < front.len() implies (#[trigger] front[i]).system_from
            == at by {
            assert(events[i].system_from == at);
        }
        law_one_time_always_follows(last, front, at);
        lemma_try_fold_step(events, last, step, n as int);
        assert(events.subrange(0, n as int) =~= front);
        assert(events.subrange(0, n + 1) =~= events);
        assert(events[n as int].system_from == at);
    }
}

} // verus!
