//! Reading a table page by page: the pages of all sources become entities in
//! ascending order, a chunk at a time. The embedding program fetches the pages.

use crate::event::{events_wf, Event, EventView};
use crate::lazy_scan::CHUNK_ENTITIES;
use crate::page_cache::{kept_with, place_of, PageCache, PageEntry};
use crate::scan::{
    history, lemma_history_empty, lemma_history_push, lemma_history_some, IidSel,
};
use crate::state::{wrapped, ScanStats};
use crate::text::views;
use crate::types::Iid;
use vstd::prelude::*;

verus! {

/// How far a source was read: the page at hand, the next row of it, and whether
/// there are no more pages.
pub struct Cursor {
    pub page: Vec<Event>,
    pub pos: usize,
    pub over: bool,
}

#[verifier::ext_equal]
pub struct CursorView {
    pub page: Seq<EventView>,
    pub pos: int,
    pub over: bool,
}

impl View for Cursor {
    type V = CursorView;

    open spec fn view(&self) -> CursorView {
        CursorView { page: views(self.page@), pos: self.pos as int, over: self.over }
    }
}

/// The next row of a page that belongs to the selection, or the end of the page.
pub open spec fn next_picked(page: Seq<EventView>, pos: int, sel: IidSel) -> int
    decreases page.len() - pos,
{
    if pos >= page.len() || sel.picks(page[pos].iid) {
        pos
    } else {
        next_picked(page, pos + 1, sel)
    }
}

/// Where the rows of an entity end on a page.
pub open spec fn run_end(page: Seq<EventView>, pos: int, iid: Iid) -> int
    decreases page.len() - pos,
{
    if pos < page.len() && page[pos].iid == iid {
        run_end(page, pos + 1, iid)
    } else {
        pos
    }
}

/// The entity of the row at hand.
pub open spec fn head(c: CursorView) -> Option<Iid> {
    if c.over || !(0 <= c.pos < c.page.len()) {
        None
    } else {
        Some(c.page[c.pos].iid)
    }
}

/// The cursor on its next row of the selection.
pub open spec fn settled(c: CursorView, sel: IidSel) -> CursorView {
    if c.over {
        c
    } else {
        CursorView { pos: next_picked(c.page, c.pos, sel), ..c }
    }
}

/// The cursor needs a page before it can go on.
pub open spec fn wants_page(c: CursorView) -> bool {
    !c.over && c.pos >= c.page.len()
}

proof fn lemma_next_picked(page: Seq<EventView>, pos: int, sel: IidSel)
    requires
        0 <= pos <= page.len(),
    ensures
        pos <= next_picked(page, pos, sel) <= page.len(),
        forall|k: int|
            pos <= k < next_picked(page, pos, sel) ==> !sel.picks((#[trigger] page[k]).iid),
        next_picked(page, pos, sel) < page.len() ==> sel.picks(
            page[next_picked(page, pos, sel)].iid,
        ),
    decreases page.len() - pos,
{
    if pos < page.len() && !sel.picks(page[pos].iid) {
        lemma_next_picked(page, pos + 1, sel);
    }
}

proof fn lemma_run_end(page: Seq<EventView>, pos: int, iid: Iid)
    requires
        0 <= pos <= page.len(),
    ensures
        pos <= run_end(page, pos, iid) <= page.len(),
        forall|k: int| pos <= k < run_end(page, pos, iid) ==> (#[trigger] page[k]).iid == iid,
    decreases page.len() - pos,
{
    if pos < page.len() && page[pos].iid == iid {
        lemma_run_end(page, pos + 1, iid);
    }
}

impl Cursor {
    pub open spec fn wf(&self) -> bool {
        self.pos <= self.page@.len() && events_wf(self.page@)
    }

    /// A source that was not read yet.
    pub fn new() -> (r: Cursor)
        ensures
            r.wf(),
            r@ == (CursorView { page: Seq::empty(), pos: 0, over: false }),
    {
        let r = Cursor { page: Vec::new(), pos: 0, over: false };
        assert(views(r.page@) =~= Seq::<EventView>::empty());
        r
    }

    /// Goes to the next row of the selection; returns whether a page is needed
    /// for that.
    pub fn settle(&mut self, sel: &IidSel) -> (r: bool)
        requires
            old(self).wf(),
            sel.wf(),
        ensures
            final(self).wf(),
            final(self)@ == settled(old(self)@, *sel),
            r == wants_page(final(self)@),
    {
        if self.over {
            return false;
        }
        let ghost page = views(self.page@);
        while self.pos < self.page.len() && !sel.admits(&self.page[self.pos].iid)
            invariant
                self.wf(),
                sel.wf(),
                !self.over,
                self.page == old(self).page,
                !old(self).over,
                page == views(self.page@),
                next_picked(page, self.pos as int, *sel) == next_picked(
                    page,
                    old(self).pos as int,
                    *sel,
                ),
            decreases self.page.len() - self.pos,
        {
            self.pos += 1;
        }
        self.pos >= self.page.len()
    }

    pub fn peek(&self) -> (r: Option<Iid>)
        requires
            self.wf(),
        ensures
            r == head(self@),
    {
        if self.over || self.pos >= self.page.len() {
            None
        } else {
            Some(self.page[self.pos].iid)
        }
    }

    /// Moves the rows of an entity, as far as this page goes, behind `rows`.
    pub fn take_run(&mut self, iid: Iid, rows: &mut Vec<Event>)
        requires
            old(self).wf(),
            events_wf(old(rows)@),
        ensures
            final(self).wf(),
            events_wf(final(rows)@),
            final(self)@ == (CursorView {
                pos: run_end(old(self)@.page, old(self)@.pos, iid),
                ..old(self)@
            }),
            views(final(rows)@) == views(old(rows)@) + old(self)@.page.subrange(
                old(self)@.pos,
                run_end(old(self)@.page, old(self)@.pos, iid),
            ),
    {
        let ghost page = views(self.page@);
        let ghost start = self.pos as int;
        let ghost rows0 = views(rows@);
        assert(rows0 + page.subrange(start, start) =~= rows0);
        while self.pos < self.page.len() && self.page[self.pos].iid.bits == iid.bits
            invariant
                self.wf(),
                events_wf(rows@),
                self.page == old(self).page,
                self.over == old(self).over,
                page == views(self.page@),
                start == old(self).pos,
                start <= self.pos,
                run_end(page, self.pos as int, iid) == run_end(page, start, iid),
                views(rows@) == rows0 + page.subrange(start, self.pos as int),
            decreases self.page.len() - self.pos,
        {
            let ghost before = rows@;
            rows.push(self.page[self.pos].clone_event());
            proof {
                assert(views(rows@) =~= views(before).push(page[self.pos as int]));
                assert(page.subrange(start, self.pos + 1) =~= page.subrange(
                    start,
                    self.pos as int,
                ).push(page[self.pos as int]));
            }
            self.pos += 1;
        }
    }
}

/// An entity with its rows: the newest source first, within a source in its
/// order.
pub struct Entity {
    pub iid: Iid,
    pub rows: Vec<Event>,
}

#[verifier::ext_equal]
pub struct EntityView {
    pub iid: Iid,
    pub rows: Seq<EventView>,
}

impl View for Entity {
    type V = EntityView;

    open spec fn view(&self) -> EntityView {
        EntityView { iid: self.iid, rows: views(self.rows@) }
    }
}

/// What the merge is about.
#[derive(Clone, Copy, Debug, PartialEq, Eq, Structural)]
pub enum Phase {
    /// The sources from a place on go to their next row.
    Settle(usize),
    /// The rows of an entity are collected; so many sources are left, and the
    /// last of them is next.
    Collect(Iid, usize),
    Over,
}

/// What is to be done next.
pub enum ScanAction {
    /// Hand in the next page of this source.
    Fetch(usize),
    /// Nothing; take the next step.
    GoOn,
    /// Resolve these entities.
    Entities(Vec<Entity>),
    /// Nothing is left.
    End,
}

pub enum ActionView {
    Fetch(int),
    GoOn,
    Entities(Seq<EntityView>),
    End,
}

impl View for ScanAction {
    type V = ActionView;

    open spec fn view(&self) -> ActionView {
        match self {
            ScanAction::Fetch(i) => ActionView::Fetch(*i as int),
            ScanAction::GoOn => ActionView::GoOn,
            ScanAction::Entities(e) => ActionView::Entities(views(e@)),
            ScanAction::End => ActionView::End,
        }
    }
}

/// The merge of all sources of a scan, oldest first.
pub struct ScanMerge {
    pub sel: IidSel,
    pub chunk: usize,
    pub cursors: Vec<Cursor>,
    pub entities: Vec<Entity>,
    pub rows: Vec<Event>,
    pub phase: Phase,
}

#[verifier::ext_equal]
pub struct MergeView {
    pub sel: IidSel,
    pub chunk: usize,
    pub cursors: Seq<CursorView>,
    pub entities: Seq<EntityView>,
    pub rows: Seq<EventView>,
    pub phase: Phase,
}

impl View for ScanMerge {
    type V = MergeView;

    open spec fn view(&self) -> MergeView {
        MergeView {
            sel: self.sel,
            chunk: self.chunk,
            cursors: views(self.cursors@),
            entities: views(self.entities@),
            rows: views(self.rows@),
            phase: self.phase,
        }
    }
}

/// The least entity that some source is at.
pub open spec fn is_least(cursors: Seq<CursorView>, iid: Iid) -> bool {
    &&& exists|i: int| 0 <= i < cursors.len() && head(#[trigger] cursors[i]) == Some(iid)
    &&& forall|i: int|
        0 <= i < cursors.len() ==> (head(#[trigger] cursors[i]) matches Some(x) ==> iid.bits
            <= x.bits)
}

/// No source is at an entity.
pub open spec fn all_over(cursors: Seq<CursorView>) -> bool {
    forall|i: int| 0 <= i < cursors.len() ==> head(#[trigger] cursors[i]) is None
}

/// One step of a merge: `after` and `action` follow from `before`.
pub open spec fn merge_step(
    before: MergeView,
    after: MergeView,
    action: ActionView,
) -> bool {
    match before.phase {
        Phase::Over => after == before && action == ActionView::End,
        Phase::Settle(i) => if i < before.cursors.len() {
            let c = settled(before.cursors[i as int], before.sel);
            let moved = MergeView { cursors: before.cursors.update(i as int, c), ..before };
            if wants_page(c) {
                after == moved && action == ActionView::Fetch(i as int)
            } else {
                after == (MergeView { phase: Phase::Settle((i + 1) as usize), ..moved }) && action
                    == ActionView::GoOn
            }
        } else if all_over(before.cursors) {
            after == (MergeView { entities: Seq::empty(), phase: Phase::Over, ..before }) && action
                == ActionView::Entities(before.entities)
        } else {
            &&& action == ActionView::GoOn
            &&& exists|iid: Iid| #[trigger]
                is_least(before.cursors, iid) && after == (MergeView {
                    rows: Seq::empty(),
                    phase: Phase::Collect(iid, before.cursors.len() as usize),
                    ..before
                })
        },
        Phase::Collect(iid, left) => if left == 0 {
            let done = before.entities.push(EntityView { iid, rows: before.rows });
            if done.len() >= before.chunk {
                after == (MergeView {
                    entities: Seq::empty(),
                    rows: Seq::empty(),
                    phase: Phase::Settle(0),
                    ..before
                }) && action == ActionView::Entities(done)
            } else {
                after == (MergeView {
                    entities: done,
                    rows: Seq::empty(),
                    phase: Phase::Settle(0),
                    ..before
                }) && action == ActionView::GoOn
            }
        } else {
            let c = settled(before.cursors[left - 1], before.sel);
            let moved = MergeView { cursors: before.cursors.update(left - 1, c), ..before };
            if wants_page(c) {
                after == moved && action == ActionView::Fetch(left - 1)
            } else if head(c) == Some(iid) {
                let end = run_end(c.page, c.pos, iid);
                after == (MergeView {
                    cursors: before.cursors.update(left - 1, CursorView { pos: end, ..c }),
                    rows: before.rows + c.page.subrange(c.pos, end),
                    ..before
                }) && action == ActionView::GoOn
            } else {
                after == (MergeView { phase: Phase::Collect(iid, (left - 1) as usize), ..moved })
                    && action == ActionView::GoOn
            }
        },
    }
}

/// The merge after a page has come for a source, or that there is none.
pub open spec fn with_page(v: MergeView, source: int, page: Option<Seq<EventView>>) -> MergeView {
    let c = match page {
        Some(rows) => CursorView { page: rows, pos: 0, ..v.cursors[source] },
        None => CursorView { over: true, ..v.cursors[source] },
    };
    MergeView { cursors: v.cursors.update(source, c), ..v }
}

/// All rows of the entities that were found, and of the one that is being
/// collected, are its own.
pub open spec fn rows_are_own(v: MergeView) -> bool {
    &&& forall|i: int, k: int|
        0 <= i < v.entities.len() && 0 <= k < v.entities[i].rows.len() ==> (
        #[trigger] v.entities[i].rows[k]).iid == v.entities[i].iid
    &&& v.phase matches Phase::Collect(iid, _) ==> forall|k: int|
        0 <= k < v.rows.len() ==> (#[trigger] v.rows[k]).iid == iid
}

/// How many entities are resolved at a time, where the reader wants no more
/// rows than a limit.
pub open spec fn chunk_for(limit: Option<usize>) -> usize {
    match limit {
        None => CHUNK_ENTITIES,
        Some(l) => if l < 256 {
            256
        } else if l > CHUNK_ENTITIES {
            CHUNK_ENTITIES
        } else {
            l
        },
    }
}

fn take_entities(entities: &mut Vec<Entity>) -> (r: Vec<Entity>)
    ensures
        r@ == old(entities)@,
        final(entities)@ == Seq::<Entity>::empty(),
{
    let mut r: Vec<Entity> = Vec::new();
    std::mem::swap(&mut r, entities);
    r
}

impl ScanMerge {
    pub open spec fn wf(&self) -> bool {
        &&& self.sel.wf()
        &&& forall|i: int| 0 <= i < self.cursors@.len() ==> (#[trigger] self.cursors@[i]).wf()
        &&& events_wf(self.rows@)
        &&& (self.phase matches Phase::Settle(i) ==> i <= self.cursors@.len())
        &&& (self.phase matches Phase::Collect(_, left) ==> left <= self.cursors@.len())
    }

    /// A merge of so many sources.
    pub fn start(sel: IidSel, sources: usize, limit: Option<usize>) -> (r: ScanMerge)
        requires
            sel.wf(),
        ensures
            r.wf(),
            r@ == (MergeView {
                sel,
                chunk: chunk_for(limit),
                cursors: Seq::new(
                    sources as nat,
                    |i: int| CursorView { page: Seq::empty(), pos: 0, over: false },
                ),
                entities: Seq::empty(),
                rows: Seq::empty(),
                phase: Phase::Settle(0),
            }),
    {
        let mut cursors: Vec<Cursor> = Vec::new();
        let mut i: usize = 0;
        while i < sources
            invariant
                i <= sources,
                cursors@.len() == i,
                forall|k: int|
                    0 <= k < i ==> (#[trigger] cursors@[k]).wf() && cursors@[k]@ == (CursorView {
                        page: Seq::empty(),
                        pos: 0,
                        over: false,
                    }),
            decreases sources - i,
        {
            cursors.push(Cursor::new());
            i += 1;
        }
        let chunk: usize = match limit {
            None => CHUNK_ENTITIES,
            Some(l) => if l < 256 {
                256
            } else if l > CHUNK_ENTITIES {
                CHUNK_ENTITIES
            } else {
                l
            },
        };
        let r = ScanMerge {
            sel,
            chunk,
            cursors,
            entities: Vec::new(),
            rows: Vec::new(),
            phase: Phase::Settle(0),
        };
        proof {
            assert(r@.cursors =~= Seq::new(
                sources as nat,
                |i: int| CursorView { page: Seq::empty(), pos: 0, over: false },
            ));
            assert(r@.entities =~= Seq::<EntityView>::empty());
            assert(r@.rows =~= Seq::<EventView>::empty());
        }
        r
    }

    fn least(&self) -> (r: Option<Iid>)
        requires
            self.wf(),
        ensures
            match r {
                Some(iid) => is_least(self@.cursors, iid) && !all_over(self@.cursors),
                None => all_over(self@.cursors),
            },
    {
        let mut r: Option<Iid> = None;
        let mut i: usize = 0;
        while i < self.cursors.len()
            invariant
                i <= self.cursors.len(),
                self.wf(),
                r is None ==> forall|k: int|
                    0 <= k < i ==> head(#[trigger] self@.cursors[k]) is None,
                r matches Some(iid) ==> {
                    &&& exists|k: int| 0 <= k < i && head(#[trigger] self@.cursors[k]) == Some(iid)
                    &&& forall|k: int|
                        0 <= k < i ==> (head(#[trigger] self@.cursors[k]) matches Some(x)
                            ==> iid.bits <= x.bits)
                },
            decreases self.cursors.len() - i,
        {
            let p = self.cursors[i].peek();
            assert(self@.cursors[i as int] == self.cursors@[i as int]@);
            match p {
                Some(x) => match r {
                    Some(iid) => {
                        if x.bits < iid.bits {
                            r = Some(x);
                        }
                    },
                    None => {
                        r = Some(x);
                    },
                },
                None => {},
            }
            i += 1;
        }
        r
    }

    fn settle_at(&mut self, i: usize) -> (r: bool)
        requires
            old(self).wf(),
            i < old(self).cursors@.len(),
        ensures
            final(self).wf(),
            final(self).sel == old(self).sel,
            final(self).chunk == old(self).chunk,
            final(self)@ == (MergeView {
                cursors: old(self)@.cursors.update(
                    i as int,
                    settled(old(self)@.cursors[i as int], old(self).sel),
                ),
                ..old(self)@
            }),
            r == wants_page(final(self)@.cursors[i as int]),
    {
        let r = self.cursors[i].settle(&self.sel);
        assert(self@.cursors =~= old(self)@.cursors.update(
            i as int,
            settled(old(self)@.cursors[i as int], old(self).sel),
        ));
        r
    }

    /// One step.
    pub fn step(&mut self) -> (r: ScanAction)
        requires
            old(self).wf(),
            rows_are_own(old(self)@),
        ensures
            final(self).wf(),
            final(self).sel == old(self).sel,
            final(self).chunk == old(self).chunk,
            merge_step(old(self)@, final(self)@, r@),
            rows_are_own(final(self)@),
            r matches ScanAction::Entities(list) ==> forall|i: int, k: int|
                0 <= i < list@.len() && 0 <= k < list@[i].rows@.len() ==> (
                #[trigger] list@[i].rows@[k]).iid == list@[i].iid,
    {
        let ghost v = self@;
        let n = self.cursors.len();
        match self.phase {
            Phase::Over => ScanAction::End,
            Phase::Settle(i) => {
                if i < n {
                    if self.settle_at(i) {
                        return ScanAction::Fetch(i);
                    }
                    assert(self@.cursors.len() == self.cursors@.len());
                    self.phase = Phase::Settle(i + 1);
                    return ScanAction::GoOn;
                }
                match self.least() {
                    None => {
                        let list = take_entities(&mut self.entities);
                        self.phase = Phase::Over;
                        proof {
                            assert(self@.entities =~= Seq::<EntityView>::empty());
                            lemma_own_rows(list@, v);
                        }
                        ScanAction::Entities(list)
                    },
                    Some(iid) => {
                        self.rows = Vec::new();
                        self.phase = Phase::Collect(iid, n);
                        assert(self@.rows =~= Seq::<EventView>::empty());
                        ScanAction::GoOn
                    },
                }
            },
            Phase::Collect(iid, left) => {
                if left == 0 {
                    let mut rows: Vec<Event> = Vec::new();
                    std::mem::swap(&mut rows, &mut self.rows);
                    let ghost entity = EntityView { iid, rows: views(rows@) };
                    self.entities.push(Entity { iid, rows });
                    self.phase = Phase::Settle(0);
                    proof {
                        assert(self@.entities =~= v.entities.push(entity));
                        assert(self@.rows =~= Seq::<EventView>::empty());
                        assert forall|i: int, k: int|
                            0 <= i < self@.entities.len() && 0 <= k
                                < self@.entities[i].rows.len() implies (
                        #[trigger] self@.entities[i].rows[k]).iid == self@.entities[i].iid by {
                            if i < v.entities.len() {
                                assert(v.entities[i].rows[k].iid == v.entities[i].iid);
                            } else {
                                assert(v.rows[k].iid == iid);
                            }
                        }
                    }
                    if self.entities.len() >= self.chunk {
                        let ghost w = self@;
                        let list = take_entities(&mut self.entities);
                        proof {
                            assert(self@.entities =~= Seq::<EntityView>::empty());
                            lemma_own_rows(list@, w);
                        }
                        return ScanAction::Entities(list);
                    }
                    return ScanAction::GoOn;
                }
                let i: usize = left - 1;
                if self.settle_at(i) {
                    return ScanAction::Fetch(i);
                }
                let ghost moved = self@;
                let here = match self.cursors[i].peek() {
                    Some(x) => x.bits == iid.bits,
                    None => false,
                };
                assert(self@.cursors[i as int] == self.cursors@[i as int]@);
                if here {
                    proof {
                        let c = moved.cursors[i as int];
                        lemma_run_end(c.page, c.pos, iid);
                    }
                    self.cursors[i].take_run(iid, &mut self.rows);
                    proof {
                        let c = moved.cursors[i as int];
                        let end = run_end(c.page, c.pos, iid);
                        let d = CursorView { pos: end, ..c };
                        assert(self.cursors@[i as int]@ == d);
                        assert(self@.cursors =~= moved.cursors.update(i as int, d));
                        assert(moved.cursors.update(i as int, d) =~= v.cursors.update(
                            i as int,
                            d,
                        ));
                        assert(self@.rows =~= v.rows + c.page.subrange(c.pos, end));
                        assert forall|k: int| 0 <= k < self@.rows.len() implies (
                        #[trigger] self@.rows[k]).iid == iid by {
                            if k < v.rows.len() {
                                assert(v.rows[k].iid == iid);
                            } else {
                                assert(c.page[c.pos + (k - v.rows.len())].iid == iid);
                            }
                        }
                    }
                    ScanAction::GoOn
                } else {
                    self.phase = Phase::Collect(iid, i);
                    ScanAction::GoOn
                }
            },
        }
    }

    /// Takes in the next page of a source that was asked for, or that there is
    /// none.
    pub fn deliver(&mut self, source: usize, page: Option<Vec<Event>>)
        requires
            old(self).wf(),
            source < old(self).cursors@.len(),
            page matches Some(rows) ==> events_wf(rows@),
        ensures
            final(self).wf(),
            final(self).sel == old(self).sel,
            final(self).chunk == old(self).chunk,
            final(self)@ == with_page(
                old(self)@,
                source as int,
                match page {
                    Some(rows) => Some(views(rows@)),
                    None => None,
                },
            ),
            rows_are_own(old(self)@) ==> rows_are_own(final(self)@),
    {
        let ghost v = self@;
        match page {
            Some(rows) => {
                let ghost list = views(rows@);
                self.cursors[source].page = rows;
                self.cursors[source].pos = 0;
                assert(self@.cursors =~= with_page(v, source as int, Some(list)).cursors);
            },
            None => {
                self.cursors[source].over = true;
                assert(self@.cursors =~= with_page(v, source as int, None).cursors);
            },
        }
    }
}

proof fn lemma_own_rows(list: Seq<Entity>, v: MergeView)
    requires
        rows_are_own(v),
        v.entities == views(list),
    ensures
        forall|i: int, k: int|
            0 <= i < list.len() && 0 <= k < list[i].rows@.len() ==> (
            #[trigger] list[i].rows@[k]).iid == list[i].iid,
{
    assert forall|i: int, k: int| 0 <= i < list.len() && 0 <= k < list[i].rows@.len() implies (
    #[trigger] list[i].rows@[k]).iid == list[i].iid by {
        assert(v.entities[i] == list[i]@);
        assert(v.entities[i].rows[k].iid == v.entities[i].iid);
    }
}

/// How many of some rows are handed out where no more than a limit are wanted.
pub open spec fn taken(remaining: Option<usize>, rows: nat) -> nat {
    match remaining {
        Some(left) => if left < rows {
            left as nat
        } else {
            rows
        },
        None => rows,
    }
}

/// The limit after some rows.
pub open spec fn limit_after(remaining: Option<usize>, rows: nat) -> Option<usize> {
    match remaining {
        Some(left) => Some((left - taken(remaining, rows)) as usize),
        None => None,
    }
}

/// The rows that a scan may still hand out; all of them where there is no limit.
pub struct RowLimit {
    pub remaining: Option<usize>,
}

impl RowLimit {
    pub fn new(limit: Option<usize>) -> (r: RowLimit)
        ensures
            r.remaining == limit,
    {
        RowLimit { remaining: limit }
    }

    /// Whether no more rows are wanted.
    pub fn is_reached(&self) -> (r: bool)
        ensures
            r == (self.remaining == Some(0usize)),
    {
        match self.remaining {
            Some(left) => left == 0,
            None => false,
        }
    }

    /// How many of some rows are handed out.
    pub fn take(&mut self, rows: usize) -> (r: usize)
        ensures
            r == taken(old(self).remaining, rows as nat),
            final(self).remaining == limit_after(old(self).remaining, rows as nat),
    {
        match self.remaining {
            None => rows,
            Some(left) => {
                let take: usize = if left < rows {
                    left
                } else {
                    rows
                };
                self.remaining = Some(left - take);
                take
            },
        }
    }
}

/// How many rows are found in some chunks.
pub open spec fn rows_found(chunks: Seq<nat>) -> nat
    decreases chunks.len(),
{
    if chunks.len() == 0 {
        0
    } else {
        chunks[0] + rows_found(chunks.skip(1))
    }
}

/// How many rows of some chunks are handed out, one chunk after the other.
pub open spec fn rows_handed_out(remaining: Option<usize>, chunks: Seq<nat>) -> nat
    decreases chunks.len(),
{
    if chunks.len() == 0 {
        0
    } else {
        taken(remaining, chunks[0]) + rows_handed_out(
            limit_after(remaining, chunks[0]),
            chunks.skip(1),
        )
    }
}

/// A scan with a limit hands out as many rows as there are, up to the limit,
/// however they are spread over chunks; one without hands out all.
pub proof fn law_limits_are_exact(remaining: Option<usize>, chunks: Seq<nat>)
    ensures
        rows_handed_out(remaining, chunks) == (match remaining {
            Some(left) => if left < rows_found(chunks) {
                left as nat
            } else {
                rows_found(chunks)
            },
            None => rows_found(chunks),
        }),
    decreases chunks.len(),
{
    if chunks.len() > 0 {
        law_limits_are_exact(limit_after(remaining, chunks[0]), chunks.skip(1));
    }
}

/// A page out of the cache, counted as such.
pub fn cached_page<'a, V>(
    cache: &'a mut PageCache<V>,
    stats: &mut ScanStats,
    object: &str,
    offset: u64,
) -> (r: Option<&'a V>)
    requires
        old(cache).wf(),
        old(cache).tick < u64::MAX,
    ensures
        final(cache).wf(),
        final(cache).max_bytes == old(cache).max_bytes,
        if old(cache).max_bytes == 0 {
            r is None && *final(cache) == *old(cache)
        } else {
            &&& final(cache).tick == old(cache).tick + 1
            &&& match place_of(old(cache).entries@, object@, offset) {
                None => r is None && final(cache).entries@ == old(cache).entries@,
                Some(i) => {
                    &&& (r matches Some(v) && *v == old(cache).entries@[i].value)
                    &&& final(cache).entries@ == old(cache).entries@.update(
                        i,
                        PageEntry { last_used: final(cache).tick, ..old(cache).entries@[i] },
                    )
                },
            }
        },
        *final(stats) == (if r is Some {
            ScanStats {
                block_pages_read: wrapped(old(stats).block_pages_read as int, 1),
                block_pages_cached: wrapped(old(stats).block_pages_cached as int, 1),
                ..*old(stats)
            }
        } else {
            *old(stats)
        }),
{
    match cache.get(object, offset) {
        Some(v) => {
            stats.record_cached_page();
            Some(v)
        },
        None => None,
    }
}

/// Whether only the rows of the selection are decoded: where it is narrow, and
/// the page is not worth decoding whole.
pub fn decodes_in_part(narrow: bool, whole: bool) -> (r: bool)
    ensures
        r == (narrow && !whole),
{
    narrow && !whole
}

/// Counts a page that was decoded, and caches it where all of it was.
pub fn page_decoded<V>(
    cache: &mut PageCache<V>,
    stats: &mut ScanStats,
    object: String,
    offset: u64,
    value: V,
    rows: usize,
    bytes: usize,
    in_part: bool,
)
    requires
        old(cache).wf(),
        old(cache).tick < u64::MAX,
    ensures
        final(cache).wf(),
        final(cache).max_bytes == old(cache).max_bytes,
        in_part ==> *final(cache) == *old(cache),
        !in_part ==> if old(cache).max_bytes == 0 || bytes > old(cache).max_bytes {
            *final(cache) == *old(cache)
        } else {
            &&& final(cache).tick == old(cache).tick + 1
            &&& final(cache).entries@ == kept_with(
                *old(cache),
                PageEntry { object, offset, value, bytes, last_used: final(cache).tick },
            )
        },
        *final(stats) == (ScanStats {
            block_pages_read: wrapped(old(stats).block_pages_read as int, 1),
            block_events_decoded: wrapped(
                old(stats).block_events_decoded as int,
                rows as int,
            ),
            ..*old(stats)
        }),
{
    stats.record_page(rows);
    if !in_part {
        cache.insert(object, offset, value, bytes);
    }
}

// ---------------------------------------------------------------------------
// What the merge finds.
// ---------------------------------------------------------------------------

/// What a source has still to give: the rest of its page and of the pages to
/// come.
pub open spec fn rest(c: CursorView, pages: Seq<EventView>) -> Seq<EventView> {
    if c.over {
        Seq::empty()
    } else {
        c.page.subrange(c.pos, c.page.len() as int) + pages
    }
}

/// The rows of an entity that the first `n` sources have still to give, the last
/// source first.
pub open spec fn owed(
    cursors: Seq<CursorView>,
    pages: Seq<Seq<EventView>>,
    iid: Iid,
    n: int,
) -> Seq<EventView>
    decreases n,
{
    if n <= 0 {
        Seq::empty()
    } else {
        history(rest(cursors[n - 1], pages[n - 1]), iid) + owed(cursors, pages, iid, n - 1)
    }
}

/// A source gives its entities in ascending order, none before this one.
pub open spec fn ascends_from(rows: Seq<EventView>, iid: Iid) -> bool {
    &&& forall|i: int, j: int|
        0 <= i <= j < rows.len() ==> (#[trigger] rows[i]).iid.bits <= (
        #[trigger] rows[j]).iid.bits
    &&& forall|i: int| 0 <= i < rows.len() ==> iid.bits <= (#[trigger] rows[i]).iid.bits
}

proof fn lemma_history_add(a: Seq<EventView>, b: Seq<EventView>, iid: Iid)
    ensures
        history(a + b, iid) == history(a, iid) + history(b, iid),
    decreases b.len(),
{
    if b.len() == 0 {
        assert(a + b =~= a);
        lemma_history_empty(iid);
        assert(b =~= Seq::<EventView>::empty());
        assert(history(a, iid) + history(b, iid) =~= history(a, iid));
    } else {
        let front = b.drop_last();
        lemma_history_add(a, front, iid);
        assert(a + b =~= (a + front).push(b.last()));
        assert(b =~= front.push(b.last()));
        lemma_history_push(a + front, b.last(), iid);
        lemma_history_push(front, b.last(), iid);
        assert(history(a + b, iid) =~= history(a, iid) + history(b, iid));
    }
}

proof fn lemma_history_all(rows: Seq<EventView>, iid: Iid)
    requires
        forall|k: int| 0 <= k < rows.len() ==> (#[trigger] rows[k]).iid == iid,
    ensures
        history(rows, iid) == rows,
    decreases rows.len(),
{
    if rows.len() == 0 {
        lemma_history_empty(iid);
        assert(rows =~= Seq::<EventView>::empty());
    } else {
        let front = rows.drop_last();
        lemma_history_all(front, iid);
        assert(rows =~= front.push(rows.last()));
        assert(rows.last() == rows[rows.len() - 1]);
        lemma_history_push(front, rows.last(), iid);
    }
}

proof fn lemma_history_none(rows: Seq<EventView>, iid: Iid)
    requires
        forall|k: int| 0 <= k < rows.len() ==> (#[trigger] rows[k]).iid != iid,
    ensures
        history(rows, iid) == Seq::<EventView>::empty(),
    decreases rows.len(),
{
    if rows.len() == 0 {
        lemma_history_empty(iid);
        assert(rows =~= Seq::<EventView>::empty());
    } else {
        let front = rows.drop_last();
        lemma_history_none(front, iid);
        assert(rows =~= front.push(rows.last()));
        assert(rows.last() == rows[rows.len() - 1]);
        lemma_history_push(front, rows.last(), iid);
    }
}

proof fn lemma_owed_same(
    a: Seq<CursorView>,
    b: Seq<CursorView>,
    pages: Seq<Seq<EventView>>,
    iid: Iid,
    n: int,
)
    requires
        forall|i: int| 0 <= i < n ==> #[trigger] a[i] == b[i],
    ensures
        owed(a, pages, iid, n) == owed(b, pages, iid, n),
    decreases n,
{
    if n > 0 {
        lemma_owed_same(a, b, pages, iid, n - 1);
        assert(a[n - 1] == b[n - 1]);
    }
}

/// While an entity that the selection picks is collected, no row of it is lost
/// and none comes twice: what was collected and what the sources still owe stay
/// the same in all, where each source gives its entities in ascending order and
/// none before this one. So in the end all rows of the entity were collected,
/// the newest source first.
pub proof fn law_collecting_loses_nothing(
    before: MergeView,
    after: MergeView,
    action: ActionView,
    pages: Seq<Seq<EventView>>,
    iid: Iid,
    left: usize,
)
    requires
        merge_step(before, after, action),
        before.phase == Phase::Collect(iid, left),
        0 < left <= before.cursors.len(),
        pages.len() == before.cursors.len(),
        before.sel.picks(iid),
        0 <= before.cursors[left - 1].pos <= before.cursors[left - 1].page.len(),
        ascends_from(rest(before.cursors[left - 1], pages[left - 1]), iid),
    ensures
        after.phase matches Phase::Collect(same, l) && same == iid && after.rows + owed(
            after.cursors,
            pages,
            iid,
            l as int,
        ) == before.rows + owed(before.cursors, pages, iid, left as int),
{
    let sel = before.sel;
    let n = left as int;
    let c0 = before.cursors[n - 1];
    let c = settled(c0, sel);
    let p = pages[n - 1];
    let moved = before.cursors.update(n - 1, c);
    lemma_owed_same(before.cursors, moved, pages, iid, n - 1);
    // Rows that were passed over are not of the entity.
    assert(history(rest(c0, p), iid) == history(rest(c, p), iid)) by {
        if !c0.over {
            lemma_next_picked(c0.page, c0.pos, sel);
            let skipped = c0.page.subrange(c0.pos, c.pos);
            assert(rest(c0, p) =~= skipped + rest(c, p));
            lemma_history_add(skipped, rest(c, p), iid);
            assert forall|k: int| 0 <= k < skipped.len() implies (#[trigger] skipped[k]).iid
                != iid by {
                assert(!sel.picks(c0.page[c0.pos + k].iid));
            }
            lemma_history_none(skipped, iid);
            assert(history(skipped, iid) + history(rest(c, p), iid) =~= history(rest(c, p), iid));
        }
    }
    assert(owed(moved, pages, iid, n) == owed(before.cursors, pages, iid, n));
    if wants_page(c) {
    } else if head(c) == Some(iid) {
        let end = run_end(c.page, c.pos, iid);
        lemma_next_picked(c0.page, c0.pos, sel);
        lemma_run_end(c.page, c.pos, iid);
        let run = c.page.subrange(c.pos, end);
        let d = CursorView { pos: end, ..c };
        assert(rest(c, p) =~= run + rest(d, p));
        lemma_history_add(run, rest(d, p), iid);
        assert forall|k: int| 0 <= k < run.len() implies (#[trigger] run[k]).iid == iid by {
            assert(c.page[c.pos + k].iid == iid);
        }
        lemma_history_all(run, iid);
        lemma_owed_same(before.cursors, after.cursors, pages, iid, n - 1);
        assert(after.rows + owed(after.cursors, pages, iid, n) =~= before.rows + owed(
            before.cursors,
            pages,
            iid,
            n,
        ));
    } else {
        // The next row is a later entity's, so nothing is left of this one.
        let r = rest(c, p);
        assert forall|k: int| 0 <= k < r.len() implies (#[trigger] r[k]).iid != iid by {
            if !c0.over {
                lemma_next_picked(c0.page, c0.pos, sel);
                let all = rest(c0, p);
                let s = c.pos - c0.pos;
                assert(all[s + k] == r[k]);
                assert(all[s] == c.page[c.pos]);
                assert(all[s].iid.bits <= all[s + k].iid.bits);
                assert(iid.bits <= all[s].iid.bits);
                if r[k].iid == iid {
                    assert(all[s].iid.bits == iid.bits);
                    assert(c.page[c.pos].iid == iid);
                }
            }
        }
        lemma_history_none(r, iid);
        assert(owed(moved, pages, iid, n) =~= owed(moved, pages, iid, n - 1));
    }
}

/// A page that is handed in moves from the pages to come to the page at hand;
/// no row is lost by that.
pub proof fn law_pages_are_read_once(
    v: MergeView,
    source: int,
    page: Seq<EventView>,
    later: Seq<EventView>,
)
    requires
        0 <= source < v.cursors.len(),
        wants_page(v.cursors[source]),
        v.cursors[source].pos == v.cursors[source].page.len(),
    ensures
        rest(with_page(v, source, Some(page)).cursors[source], later) == rest(
            v.cursors[source],
            page + later,
        ),
{
    let c = v.cursors[source];
    let d = with_page(v, source, Some(page)).cursors[source];
    assert(d.page.subrange(0, d.page.len() as int) =~= page);
    assert(c.page.subrange(c.pos, c.page.len() as int) =~= Seq::<EventView>::empty());
    assert(rest(d, later) =~= rest(c, page + later));
}

/// All rows of an entity in the first `n` sources, the last source first.
pub open spec fn whole_upto(all: Seq<Seq<EventView>>, iid: Iid, n: int) -> Seq<EventView>
    decreases n,
{
    if n <= 0 {
        Seq::empty()
    } else {
        history(all[n - 1], iid) + whole_upto(all, iid, n - 1)
    }
}

/// All rows of an entity, the newest source first.
pub open spec fn whole(all: Seq<Seq<EventView>>, iid: Iid) -> Seq<EventView> {
    whole_upto(all, iid, all.len() as int)
}

/// A source gives its entities in ascending order.
pub open spec fn ascends(rows: Seq<EventView>) -> bool {
    forall|i: int, j: int|
        0 <= i <= j < rows.len() ==> (#[trigger] rows[i]).iid.bits <= (
        #[trigger] rows[j]).iid.bits
}

/// The entity is among those that were found.
pub open spec fn is_found(done: Seq<EntityView>, iid: Iid) -> bool {
    exists|i: int| 0 <= i < done.len() && (#[trigger] done[i]).iid == iid
}

/// The entities come in strictly ascending order, each is one that the selection
/// picks, and each has all its rows.
pub open spec fn found_whole(
    done: Seq<EntityView>,
    all: Seq<Seq<EventView>>,
    sel: IidSel,
) -> bool {
    &&& forall|i: int, j: int|
        0 <= i < j < done.len() ==> (#[trigger] done[i]).iid.bits < (#[trigger] done[j]).iid.bits
    &&& forall|i: int|
        0 <= i < done.len() ==> sel.picks((#[trigger] done[i]).iid) && done[i].rows == whole(
            all,
            done[i].iid,
        ) && done[i].rows.len() > 0
}

/// The source is at a row of the selection, or has none.
pub open spec fn ready(c: CursorView, sel: IidSel) -> bool {
    c.over || (0 <= c.pos < c.page.len() && sel.picks(c.page[c.pos].iid))
}

/// A scan in its course: the merge, the rows of each source that were not handed
/// in yet, and the entities that were handed out.
#[verifier::ext_equal]
pub struct ScanState {
    pub view: MergeView,
    pub pages: Seq<Seq<EventView>>,
    pub given: Seq<EntityView>,
}

/// What a source has still to give.
pub open spec fn left_of(s: ScanState, source: int) -> Seq<EventView> {
    rest(s.view.cursors[source], s.pages[source])
}

/// All entities that were found: those handed out, and those that wait.
pub open spec fn found_by(s: ScanState) -> Seq<EntityView> {
    s.given + s.view.entities
}

/// The entity that is being collected.
pub open spec fn collecting(v: MergeView) -> Option<Iid> {
    match v.phase {
        Phase::Collect(iid, _) => Some(iid),
        _ => None,
    }
}

/// What holds of a scan at all times: what was found is whole and in order, what
/// was not found yet is still to be given in full, and it all comes behind what
/// was found.
pub open spec fn scan_sound(s: ScanState, all: Seq<Seq<EventView>>) -> bool {
    let v = s.view;
    let n = v.cursors.len() as int;
    &&& s.pages.len() == n && all.len() == n
    &&& forall|k: int|
        0 <= k < n ==> 0 <= (#[trigger] v.cursors[k]).pos <= v.cursors[k].page.len()
    &&& forall|k: int| 0 <= k < n ==> ascends(#[trigger] left_of(s, k))
    &&& found_whole(found_by(s), all, v.sel)
    &&& forall|x: Iid, k: int|
        #![trigger history(left_of(s, k), x)]
        0 <= k < n && v.sel.picks(x) && !is_found(found_by(s), x) && collecting(v) != Some(x)
            ==> history(left_of(s, k), x) == history(all[k], x)
    &&& match v.phase {
        Phase::Settle(i) => {
            &&& i <= n
            &&& forall|k: int| 0 <= k < i ==> ready(#[trigger] v.cursors[k], v.sel)
            &&& forall|d: int, k: int, r: int|
                #![trigger found_by(s)[d], left_of(s, k)[r]]
                0 <= d < found_by(s).len() && 0 <= k < n && 0 <= r < left_of(s, k).len()
                    ==> found_by(s)[d].iid.bits < left_of(s, k)[r].iid.bits
        },
        Phase::Collect(iid, left) => {
            &&& left <= n
            &&& v.sel.picks(iid)
            &&& whole(all, iid).len() > 0
            &&& forall|d: int|
                0 <= d < found_by(s).len() ==> (#[trigger] found_by(s)[d]).iid.bits < iid.bits
            &&& forall|k: int| 0 <= k < n ==> ascends_from(#[trigger] left_of(s, k), iid)
            &&& v.rows + owed(v.cursors, s.pages, iid, left as int) == whole(all, iid)
            &&& forall|k: int|
                left <= k < n ==> history(#[trigger] left_of(s, k), iid).len() == 0
        },
        Phase::Over => {
            &&& v.entities.len() == 0
            &&& forall|k: int| 0 <= k < n ==> (#[trigger] left_of(s, k)).len() == 0
        },
    }
}

/// What a scan does: a step, or a page that it asked for is handed in, or that
/// there is none.
pub enum ScanMove {
    Step(ActionView),
    Page(int, Seq<EventView>),
    NoPage(int),
}

/// The scan after a move.
pub open spec fn scan_moved(a: ScanState, m: ScanMove, b: ScanState) -> bool {
    match m {
        ScanMove::Step(action) => {
            &&& merge_step(a.view, b.view, action)
            &&& b.pages == a.pages
            &&& b.given == (match action {
                ActionView::Entities(list) => a.given + list,
                _ => a.given,
            })
        },
        ScanMove::Page(source, page) => {
            &&& 0 <= source < a.view.cursors.len()
            &&& wants_page(a.view.cursors[source])
            &&& page.len() <= a.pages[source].len()
            &&& a.pages[source].take(page.len() as int) == page
            &&& b.view == with_page(a.view, source, Some(page))
            &&& b.pages == a.pages.update(source, a.pages[source].skip(page.len() as int))
            &&& b.given == a.given
        },
        ScanMove::NoPage(source) => {
            &&& 0 <= source < a.view.cursors.len()
            &&& wants_page(a.view.cursors[source])
            &&& a.pages[source].len() == 0
            &&& b.view == with_page(a.view, source, None)
            &&& b.pages == a.pages
            &&& b.given == a.given
        },
    }
}

/// A scan that was not begun: nothing was read and nothing found.
pub open spec fn scan_start(s: ScanState, all: Seq<Seq<EventView>>) -> bool {
    &&& s.view.cursors == Seq::new(
        all.len(),
        |i: int| CursorView { page: Seq::empty(), pos: 0, over: false },
    )
    &&& s.view.entities.len() == 0
    &&& s.view.rows.len() == 0
    &&& s.view.phase == Phase::Settle(0)
    &&& s.pages == all
    &&& s.given.len() == 0
}

/// The course of a scan, move by move.
pub open spec fn is_scan(
    states: Seq<ScanState>,
    moves: Seq<ScanMove>,
    all: Seq<Seq<EventView>>,
) -> bool {
    &&& states.len() == moves.len() + 1
    &&& scan_start(states[0], all)
    &&& forall|i: int|
        0 <= i < moves.len() ==> scan_moved(states[i], #[trigger] moves[i], states[i + 1])
}

/// Going to the next row of the selection passes over rows that it does not pick.
proof fn lemma_settled_rest(c: CursorView, sel: IidSel, pages: Seq<EventView>) -> (k: int)
    requires
        0 <= c.pos <= c.page.len(),
    ensures
        0 <= k <= rest(c, pages).len(),
        rest(settled(c, sel), pages) == rest(c, pages).skip(k),
        0 <= settled(c, sel).pos <= c.page.len(),
        settled(c, sel).page == c.page,
        !wants_page(settled(c, sel)) ==> ready(settled(c, sel), sel),
        forall|x: Iid|
            sel.picks(x) ==> #[trigger] history(rest(settled(c, sel), pages), x) == history(
                rest(c, pages),
                x,
            ),
{
    let d = settled(c, sel);
    let before = rest(c, pages);
    let after = rest(d, pages);
    if c.over {
        assert(after =~= before.skip(0));
        0
    } else {
        lemma_next_picked(c.page, c.pos, sel);
        let k = d.pos - c.pos;
        let skipped = c.page.subrange(c.pos, d.pos);
        assert(after =~= before.skip(k));
        assert(before =~= skipped + after);
        assert forall|x: Iid| sel.picks(x) implies #[trigger] history(after, x) == history(
            before,
            x,
        ) by {
            lemma_history_add(skipped, after, x);
            assert forall|j: int| 0 <= j < skipped.len() implies (#[trigger] skipped[j]).iid
                != x by {
                assert(!sel.picks(c.page[c.pos + j].iid));
            }
            lemma_history_none(skipped, x);
            assert(history(skipped, x) + history(after, x) =~= history(after, x));
        }
        k
    }
}

/// Taking the rows of an entity off a page takes no row of another.
proof fn lemma_taken_rest(c: CursorView, iid: Iid, pages: Seq<EventView>) -> (k: int)
    requires
        0 <= c.pos <= c.page.len(),
        !c.over,
    ensures
        ({
            let d = CursorView { pos: run_end(c.page, c.pos, iid), ..c };
            &&& 0 <= k <= rest(c, pages).len()
            &&& rest(d, pages) == rest(c, pages).skip(k)
            &&& 0 <= d.pos <= d.page.len()
            &&& forall|x: Iid|
                x != iid ==> #[trigger] history(rest(d, pages), x) == history(rest(c, pages), x)
        }),
{
    let d = CursorView { pos: run_end(c.page, c.pos, iid), ..c };
    lemma_run_end(c.page, c.pos, iid);
    let before = rest(c, pages);
    let after = rest(d, pages);
    let k = d.pos - c.pos;
    let run = c.page.subrange(c.pos, d.pos);
    assert(after =~= before.skip(k));
    assert(before =~= run + after);
    assert forall|x: Iid| x != iid implies #[trigger] history(after, x) == history(before, x) by {
        lemma_history_add(run, after, x);
        assert forall|j: int| 0 <= j < run.len() implies (#[trigger] run[j]).iid != x by {
            assert(c.page[c.pos + j].iid == iid);
        }
        lemma_history_none(run, x);
        assert(history(run, x) + history(after, x) =~= history(after, x));
    }
    k
}

proof fn lemma_history_member(rows: Seq<EventView>, iid: Iid)
    ensures
        history(rows, iid).len() == 0 <==> forall|k: int|
            0 <= k < rows.len() ==> (#[trigger] rows[k]).iid != iid,
{
    lemma_history_some(rows, iid);
}

/// Where each source owes all rows of an entity, all together do.
proof fn lemma_owed_whole(
    s: ScanState,
    all: Seq<Seq<EventView>>,
    iid: Iid,
    n: int,
)
    requires
        0 <= n <= all.len(),
        forall|k: int|
            0 <= k < n ==> history(#[trigger] left_of(s, k), iid) == history(all[k], iid),
    ensures
        owed(s.view.cursors, s.pages, iid, n) == whole_upto(all, iid, n),
    decreases n,
{
    if n > 0 {
        lemma_owed_whole(s, all, iid, n - 1);
        assert(history(left_of(s, n - 1), iid) == history(all[n - 1], iid));
    }
}

/// A row in some source is a row in all of them.
proof fn lemma_whole_some(all: Seq<Seq<EventView>>, iid: Iid, n: int)
    requires
        0 <= n <= all.len(),
    ensures
        whole_upto(all, iid, n).len() > 0 <==> exists|k: int|
            0 <= k < n && history(#[trigger] all[k], iid).len() > 0,
    decreases n,
{
    if n > 0 {
        lemma_whole_some(all, iid, n - 1);
        if history(all[n - 1], iid).len() == 0 && whole_upto(all, iid, n).len() > 0 {
            let k = choose|k: int| 0 <= k < n - 1 && history(#[trigger] all[k], iid).len() > 0;
            assert(history(all[k], iid).len() > 0);
        }
        if exists|k: int| 0 <= k < n && history(#[trigger] all[k], iid).len() > 0 {
            let k = choose|k: int| 0 <= k < n && history(#[trigger] all[k], iid).len() > 0;
            if k < n - 1 {
                assert(history(all[k], iid).len() > 0);
            }
        }
    }
}

/// A scan that begins owes everything.
pub proof fn law_scans_begin_sound(s: ScanState, all: Seq<Seq<EventView>>)
    requires
        scan_start(s, all),
        forall|k: int| 0 <= k < all.len() ==> ascends(#[trigger] all[k]),
    ensures
        scan_sound(s, all),
{
    assert forall|k: int| 0 <= k < all.len() implies #[trigger] left_of(s, k) == all[k] by {
        assert(left_of(s, k) =~= all[k]);
    }
    assert(found_by(s) =~= Seq::<EntityView>::empty());
    assert forall|x: Iid, k: int|
        #![trigger history(left_of(s, k), x)]
        0 <= k < all.len() implies history(left_of(s, k), x) == history(all[k], x) by {
        assert(left_of(s, k) == all[k]);
    }
}

/// A page that is handed in changes nothing of what is still to be given.
proof fn lemma_page_sound(a: ScanState, m: ScanMove, b: ScanState, all: Seq<Seq<EventView>>)
    requires
        scan_sound(a, all),
        scan_moved(a, m, b),
        !(m is Step),
    ensures
        scan_sound(b, all),
{
    let source = match m {
        ScanMove::Page(source, _) => source,
        ScanMove::NoPage(source) => source,
        ScanMove::Step(_) => 0,
    };
    let n = a.view.cursors.len() as int;
    let c = a.view.cursors[source];
    assert(c.pos == c.page.len());
    assert forall|k: int| 0 <= k < n implies #[trigger] left_of(b, k) == left_of(a, k) by {
        if k == source {
            assert(c.page.subrange(c.pos, c.page.len() as int) =~= Seq::<EventView>::empty());
            match m {
                ScanMove::Page(_, page) => {
                    assert(page.subrange(0, page.len() as int) =~= page);
                    assert(a.pages[source] =~= page + a.pages[source].skip(page.len() as int));
                    assert(left_of(b, k) =~= left_of(a, k));
                },
                _ => {
                    assert(left_of(b, k) =~= left_of(a, k));
                },
            }
        } else {
            assert(b.view.cursors[k] == a.view.cursors[k]);
            assert(b.pages[k] == a.pages[k]);
        }
    }
    assert(found_by(b) == found_by(a));
    assert forall|x: Iid, k: int|
        #![trigger history(left_of(b, k), x)]
        0 <= k < n && b.view.sel.picks(x) && !is_found(found_by(b), x) && collecting(b.view)
            != Some(x) implies history(left_of(b, k), x) == history(all[k], x) by {
        assert(left_of(b, k) == left_of(a, k));
        assert(history(left_of(a, k), x) == history(all[k], x));
    }
    match a.view.phase {
        Phase::Settle(i) => {
            assert forall|k: int| 0 <= k < i implies ready(#[trigger] b.view.cursors[k], b.view.sel) by {
                assert(ready(a.view.cursors[k], a.view.sel));
                assert(k != source);
            }
            assert forall|d: int, k: int, r: int|
                #![trigger found_by(b)[d], left_of(b, k)[r]]
                0 <= d < found_by(b).len() && 0 <= k < n && 0 <= r < left_of(b, k).len() implies found_by(
                b,
            )[d].iid.bits < left_of(b, k)[r].iid.bits by {
                assert(left_of(b, k) == left_of(a, k));
                assert(found_by(a)[d].iid.bits < left_of(a, k)[r].iid.bits);
            }
        },
        Phase::Collect(iid, left) => {
            assert forall|k: int| 0 <= k < n implies ascends_from(#[trigger] left_of(b, k), iid) by {
                assert(ascends_from(left_of(a, k), iid));
            }
            assert forall|k: int| left <= k < n implies history(
                #[trigger] left_of(b, k),
                iid,
            ).len() == 0 by {
                assert(history(left_of(a, k), iid).len() == 0);
            }
            lemma_owed_left(a, b, iid, left as int);
        },
        Phase::Over => {
            assert(left_of(b, source) == left_of(a, source));
            assert forall|k: int| 0 <= k < n implies (#[trigger] left_of(b, k)).len() == 0 by {
                assert(left_of(a, k).len() == 0);
            }
        },
    }
}

/// What is owed depends on what is left alone.
proof fn lemma_owed_left(a: ScanState, b: ScanState, iid: Iid, n: int)
    requires
        forall|k: int|
            0 <= k < n ==> history(#[trigger] left_of(b, k), iid) == history(left_of(a, k), iid),
    ensures
        owed(b.view.cursors, b.pages, iid, n) == owed(a.view.cursors, a.pages, iid, n),
    decreases n,
{
    if n > 0 {
        lemma_owed_left(a, b, iid, n - 1);
        assert(history(left_of(b, n - 1), iid) == history(left_of(a, n - 1), iid));
    }
}

/// One source moved on to a later row of its own.
spec fn moved_on(a: ScanState, b: ScanState, source: int, k: int) -> bool {
    &&& 0 <= source < a.view.cursors.len()
    &&& b.view.cursors.len() == a.view.cursors.len()
    &&& b.pages == a.pages
    &&& b.view.sel == a.view.sel
    &&& forall|i: int|
        0 <= i < a.view.cursors.len() && i != source ==> #[trigger] b.view.cursors[i]
            == a.view.cursors[i]
    &&& 0 <= b.view.cursors[source].pos <= b.view.cursors[source].page.len()
    &&& 0 <= k <= left_of(a, source).len()
    &&& left_of(b, source) == left_of(a, source).skip(k)
}

/// What a source gives stays in order, and above what it was above.
proof fn lemma_moved_on(a: ScanState, b: ScanState, source: int, k: int, all: Seq<Seq<EventView>>)
    requires
        moved_on(a, b, source, k),
        scan_sound(a, all),
    ensures
        forall|i: int|
            0 <= i < b.view.cursors.len() ==> 0 <= (#[trigger] b.view.cursors[i]).pos
                <= b.view.cursors[i].page.len(),
        forall|i: int| 0 <= i < b.view.cursors.len() ==> ascends(#[trigger] left_of(b, i)),
        forall|i: int|
            0 <= i < b.view.cursors.len() && i != source ==> #[trigger] left_of(b, i) == left_of(
                a,
                i,
            ),
{
    let n = b.view.cursors.len() as int;
    assert forall|i: int| 0 <= i < n implies 0 <= (#[trigger] b.view.cursors[i]).pos
        <= b.view.cursors[i].page.len() by {
        if i != source {
            assert(b.view.cursors[i] == a.view.cursors[i]);
        }
    }
    assert forall|i: int| 0 <= i < n && i != source implies #[trigger] left_of(b, i) == left_of(
        a,
        i,
    ) by {
        assert(b.view.cursors[i] == a.view.cursors[i]);
    }
    assert forall|i: int| 0 <= i < n implies ascends(#[trigger] left_of(b, i)) by {
        assert(ascends(left_of(a, i)));
        if i == source {
            let x = left_of(a, i);
            let y = left_of(b, i);
            assert forall|p: int, q: int| 0 <= p <= q < y.len() implies (#[trigger] y[p]).iid.bits
                <= (#[trigger] y[q]).iid.bits by {
                assert(y[p] == x[p + k] && y[q] == x[q + k]);
            }
        }
    }
}

proof fn lemma_settle_sound(
    a: ScanState,
    action: ActionView,
    b: ScanState,
    all: Seq<Seq<EventView>>,
    i: usize,
)
    requires
        scan_sound(a, all),
        scan_moved(a, ScanMove::Step(action), b),
        a.view.phase == Phase::Settle(i),
        i < a.view.cursors.len(),
    ensures
        scan_sound(b, all),
{
    let n = a.view.cursors.len() as int;
    let at = i as int;
    let sel = a.view.sel;
    let c = a.view.cursors[at];
    let k = lemma_settled_rest(c, sel, a.pages[at]);
    assert(left_of(b, at) == left_of(a, at).skip(k));
    assert(moved_on(a, b, at, k));
    lemma_moved_on(a, b, at, k, all);
    assert(found_by(b) == found_by(a));
    assert forall|x: Iid, j: int|
        #![trigger history(left_of(b, j), x)]
        0 <= j < n && sel.picks(x) && !is_found(found_by(b), x) implies history(left_of(b, j), x)
        == history(all[j], x) by {
        assert(history(left_of(a, j), x) == history(all[j], x));
        if j != at {
            assert(left_of(b, j) == left_of(a, j));
        }
    }
    assert forall|d: int, j: int, r: int|
        #![trigger found_by(b)[d], left_of(b, j)[r]]
        0 <= d < found_by(b).len() && 0 <= j < n && 0 <= r < left_of(b, j).len() implies found_by(
        b,
    )[d].iid.bits < left_of(b, j)[r].iid.bits by {
        let q = if j == at {
            r + k
        } else {
            r
        };
        assert(left_of(b, j)[r] == left_of(a, j)[q]);
        assert(found_by(a)[d].iid.bits < left_of(a, j)[q].iid.bits);
    }
    if let Phase::Settle(next) = b.view.phase {
        assert forall|j: int| 0 <= j < next implies ready(#[trigger] b.view.cursors[j], sel) by {
            if j != at {
                assert(ready(a.view.cursors[j], sel));
            }
        }
    }
}

/// All sources are at their next row: the least of these is the next entity, or
/// there is none.
proof fn lemma_choose_sound(
    a: ScanState,
    action: ActionView,
    b: ScanState,
    all: Seq<Seq<EventView>>,
    i: usize,
)
    requires
        scan_sound(a, all),
        scan_moved(a, ScanMove::Step(action), b),
        a.view.phase == Phase::Settle(i),
        i >= a.view.cursors.len(),
        a.view.cursors.len() <= usize::MAX,
    ensures
        scan_sound(b, all),
{
    let n = a.view.cursors.len() as int;
    let sel = a.view.sel;
    assert(b.view.cursors == a.view.cursors);
    assert forall|j: int| 0 <= j < n implies #[trigger] left_of(b, j) == left_of(a, j) by {}
    if all_over(a.view.cursors) {
        assert(found_by(b) =~= found_by(a));
        assert forall|j: int| 0 <= j < n implies (#[trigger] left_of(b, j)).len() == 0 by {
            assert(ready(a.view.cursors[j], sel));
            assert(head(a.view.cursors[j]) is None);
        }
        assert forall|x: Iid, j: int|
            #![trigger history(left_of(b, j), x)]
            0 <= j < n && sel.picks(x) && !is_found(found_by(b), x) implies history(
            left_of(b, j),
            x,
        ) == history(all[j], x) by {
            assert(history(left_of(a, j), x) == history(all[j], x));
        }
    } else {
        let iid = choose|iid: Iid| #[trigger]
            is_least(a.view.cursors, iid) && b.view == (MergeView {
                rows: Seq::empty(),
                phase: Phase::Collect(iid, a.view.cursors.len() as usize),
                ..a.view
            });
        assert(is_least(a.view.cursors, iid));
        let j = choose|j: int| 0 <= j < n && head(#[trigger] a.view.cursors[j]) == Some(iid);
        let c = a.view.cursors[j];
        assert(ready(c, sel));
        assert(left_of(a, j)[0] == c.page[c.pos]);
        assert(left_of(a, j)[0].iid == iid);
        assert(found_by(b) == found_by(a));
        assert forall|d: int| 0 <= d < found_by(b).len() implies (
        #[trigger] found_by(b)[d]).iid.bits < iid.bits by {
            assert(found_by(a)[d].iid.bits < left_of(a, j)[0].iid.bits);
        }
        assert(!is_found(found_by(a), iid)) by {
            if is_found(found_by(a), iid) {
                let d = choose|d: int| 0 <= d < found_by(a).len() && (
                #[trigger] found_by(a)[d]).iid == iid;
                assert(found_by(b)[d].iid.bits < iid.bits);
            }
        }
        assert forall|k: int| 0 <= k < n implies ascends_from(#[trigger] left_of(b, k), iid) by {
            let x = left_of(a, k);
            let e = a.view.cursors[k];
            assert(ascends(x));
            assert(ready(e, sel));
            if !e.over {
                assert(head(e) == Some(e.page[e.pos].iid));
                assert(x[0] == e.page[e.pos]);
                assert forall|r: int| 0 <= r < x.len() implies iid.bits <= (
                #[trigger] x[r]).iid.bits by {
                    assert(x[0].iid.bits <= x[r].iid.bits);
                }
            }
        }
        assert forall|k: int| 0 <= k < n implies history(#[trigger] left_of(b, k), iid) == history(
            all[k],
            iid,
        ) by {
            assert(history(left_of(a, k), iid) == history(all[k], iid));
        }
        lemma_owed_whole(b, all, iid, n);
        assert(b.view.rows + owed(b.view.cursors, b.pages, iid, n) =~= whole(all, iid));
        lemma_history_member(left_of(a, j), iid);
        assert(history(left_of(b, j), iid) == history(all[j], iid));
        lemma_whole_some(all, iid, n);
        assert(history(all[j], iid).len() > 0);
        assert forall|x: Iid, k: int|
            #![trigger history(left_of(b, k), x)]
            0 <= k < n && sel.picks(x) && !is_found(found_by(b), x) && collecting(b.view) != Some(
                x,
            ) implies history(left_of(b, k), x) == history(all[k], x) by {
            assert(history(left_of(a, k), x) == history(all[k], x));
        }
    }
}

/// An entity is complete.
proof fn lemma_complete_sound(
    a: ScanState,
    action: ActionView,
    b: ScanState,
    all: Seq<Seq<EventView>>,
    iid: Iid,
)
    requires
        scan_sound(a, all),
        scan_moved(a, ScanMove::Step(action), b),
        a.view.phase == Phase::Collect(iid, 0),
    ensures
        scan_sound(b, all),
{
    let n = a.view.cursors.len() as int;
    let sel = a.view.sel;
    let entity = EntityView { iid, rows: a.view.rows };
    let done = found_by(a);
    assert(b.view.cursors == a.view.cursors);
    assert forall|j: int| 0 <= j < n implies #[trigger] left_of(b, j) == left_of(a, j) by {}
    assert(found_by(b) =~= done.push(entity)) by {
        assert(a.given + a.view.entities.push(entity) =~= done.push(entity));
        assert((a.given + a.view.entities.push(entity)) + Seq::<EntityView>::empty()
            =~= done.push(entity));
    }
    assert(a.view.rows + owed(a.view.cursors, a.pages, iid, 0) =~= a.view.rows);
    let after = found_by(b);
    assert forall|p: int, q: int| 0 <= p < q < after.len() implies (#[trigger] after[p]).iid.bits < (
    #[trigger] after[q]).iid.bits by {
        assert(after[p] == done[p]);
        if q < done.len() {
            assert(done[p].iid.bits < done[q].iid.bits);
        }
    }
    assert forall|p: int| 0 <= p < after.len() implies sel.picks((#[trigger] after[p]).iid)
        && after[p].rows == whole(all, after[p].iid) && after[p].rows.len() > 0 by {
        if p < done.len() {
            assert(after[p] == done[p]);
        }
    }
    assert forall|x: Iid, k: int|
        #![trigger history(left_of(b, k), x)]
        0 <= k < n && sel.picks(x) && !is_found(after, x) implies history(left_of(b, k), x)
        == history(all[k], x) by {
        assert(after[done.len() as int] == entity);
        assert(x != iid);
        assert(!is_found(done, x)) by {
            if is_found(done, x) {
                let d = choose|d: int| 0 <= d < done.len() && (#[trigger] done[d]).iid == x;
                assert(after[d].iid == x);
            }
        }
        assert(history(left_of(a, k), x) == history(all[k], x));
    }
    assert forall|d: int, k: int, r: int|
        #![trigger after[d], left_of(b, k)[r]]
        0 <= d < after.len() && 0 <= k < n && 0 <= r < left_of(b, k).len() implies after[d].iid.bits
        < left_of(b, k)[r].iid.bits by {
        let rows = left_of(a, k);
        assert(ascends_from(rows, iid));
        lemma_history_member(rows, iid);
        assert(history(left_of(a, k), iid).len() == 0);
        assert(rows[r].iid != iid);
        assert(iid.bits <= rows[r].iid.bits);
        assert(iid.bits < rows[r].iid.bits);
        if d < done.len() {
            assert(done[d].iid.bits < iid.bits);
        }
    }
}

/// A source gives its rows of the entity that is collected, or has no more.
proof fn lemma_collect_sound(
    a: ScanState,
    action: ActionView,
    b: ScanState,
    all: Seq<Seq<EventView>>,
    iid: Iid,
    left: usize,
)
    requires
        scan_sound(a, all),
        scan_moved(a, ScanMove::Step(action), b),
        a.view.phase == Phase::Collect(iid, left),
        left > 0,
    ensures
        scan_sound(b, all),
{
    let n = a.view.cursors.len() as int;
    let at = left - 1;
    let sel = a.view.sel;
    let c0 = a.view.cursors[at];
    let p = a.pages[at];
    let c = settled(c0, sel);
    assert(ascends_from(left_of(a, at), iid));
    law_collecting_loses_nothing(a.view, b.view, action, a.pages, iid, left);
    let k1 = lemma_settled_rest(c0, sel, p);
    let runs = !wants_page(c) && head(c) == Some(iid);
    let k = if runs {
        let k2 = lemma_taken_rest(c, iid, p);
        assert(rest(c0, p).skip(k1).skip(k2) =~= rest(c0, p).skip(k1 + k2));
        k1 + k2
    } else {
        k1
    };
    assert(left_of(b, at) == left_of(a, at).skip(k));
    assert(moved_on(a, b, at, k));
    lemma_moved_on(a, b, at, k, all);
    assert(found_by(b) == found_by(a));
    assert forall|x: Iid, j: int|
        #![trigger history(left_of(b, j), x)]
        0 <= j < n && sel.picks(x) && !is_found(found_by(b), x) && collecting(b.view) != Some(
            x,
        ) implies history(left_of(b, j), x) == history(all[j], x) by {
        assert(history(left_of(a, j), x) == history(all[j], x));
        if j != at {
            assert(left_of(b, j) == left_of(a, j));
        }
    }
    assert forall|j: int| 0 <= j < n implies ascends_from(#[trigger] left_of(b, j), iid) by {
        assert(ascends_from(left_of(a, j), iid));
        assert(ascends(left_of(b, j)));
        assert forall|r: int| 0 <= r < left_of(b, j).len() implies iid.bits <= (
        #[trigger] left_of(b, j)[r]).iid.bits by {
            let q = if j == at {
                r + k
            } else {
                r
            };
            assert(left_of(b, j)[r] == left_of(a, j)[q]);
            assert(iid.bits <= left_of(a, j)[q].iid.bits);
        }
    }
    let now = match b.view.phase {
        Phase::Collect(_, l) => l as int,
        _ => 0,
    };
    assert forall|j: int| now <= j < n implies history(#[trigger] left_of(b, j), iid).len()
        == 0 by {
        if j == at {
            // The source is past the entity: its next row is a later entity's.
            let rows = left_of(b, at);
            assert(!wants_page(c) && head(c) != Some(iid));
            if !c.over {
                assert(ready(c, sel));
                assert(rows[0] == c.page[c.pos]);
                assert(head(c) == Some(rows[0].iid));
                assert(ascends_from(rows, iid));
                assert forall|r: int| 0 <= r < rows.len() implies (#[trigger] rows[r]).iid
                    != iid by {
                    assert(rows[0].iid.bits <= rows[r].iid.bits);
                    assert(iid.bits <= rows[0].iid.bits);
                    assert(rows[0].iid != iid);
                }
            }
            lemma_history_member(rows, iid);
        } else {
            assert(left_of(b, j) == left_of(a, j));
            assert(history(left_of(a, j), iid).len() == 0);
        }
    }
}

/// Every move of a scan keeps what holds of it: the entities that were found
/// stay whole and in order, and what is still to be given comes behind them.
pub proof fn law_scans_stay_sound(
    a: ScanState,
    m: ScanMove,
    b: ScanState,
    all: Seq<Seq<EventView>>,
)
    requires
        scan_sound(a, all),
        scan_moved(a, m, b),
        all.len() <= usize::MAX,
    ensures
        scan_sound(b, all),
        found_by(a).is_prefix_of(found_by(b)),
{
    match m {
        ScanMove::Step(action) => match a.view.phase {
            Phase::Over => {
                assert(b == a);
            },
            Phase::Settle(i) => {
                if i < a.view.cursors.len() {
                    lemma_settle_sound(a, action, b, all, i);
                } else {
                    lemma_choose_sound(a, action, b, all, i);
                }
            },
            Phase::Collect(iid, left) => {
                if left == 0 {
                    lemma_complete_sound(a, action, b, all, iid);
                } else {
                    lemma_collect_sound(a, action, b, all, iid, left);
                }
            },
        },
        _ => {
            lemma_page_sound(a, m, b, all);
        },
    }
    assert(found_by(a) =~= found_by(b).take(found_by(a).len() as int));
}

proof fn lemma_scan_sound(
    states: Seq<ScanState>,
    moves: Seq<ScanMove>,
    all: Seq<Seq<EventView>>,
    i: int,
)
    requires
        is_scan(states, moves, all),
        forall|k: int| 0 <= k < all.len() ==> ascends(#[trigger] all[k]),
        all.len() <= usize::MAX,
        0 <= i < states.len(),
    ensures
        scan_sound(states[i], all),
        states[i].view.sel == states[0].view.sel,
    decreases i,
{
    if i == 0 {
        law_scans_begin_sound(states[0], all);
    } else {
        lemma_scan_sound(states, moves, all, i - 1);
        assert(scan_moved(states[i - 1], moves[i - 1], states[i]));
        law_scans_stay_sound(states[i - 1], moves[i - 1], states[i], all);
    }
}

/// Where every source gives its rows in ascending order, a scan hands its
/// entities out in strictly ascending order, each one that the selection picks
/// and with all its rows, the newest source first.
pub proof fn law_scans_ascend(
    states: Seq<ScanState>,
    moves: Seq<ScanMove>,
    all: Seq<Seq<EventView>>,
)
    requires
        is_scan(states, moves, all),
        forall|k: int| 0 <= k < all.len() ==> ascends(#[trigger] all[k]),
        all.len() <= usize::MAX,
    ensures
        found_whole(states.last().given, all, states[0].view.sel),
{
    let s = states.last();
    lemma_scan_sound(states, moves, all, states.len() - 1);
    let done = found_by(s);
    assert forall|i: int| 0 <= i < s.given.len() implies #[trigger] s.given[i] == done[i] by {}
}

/// A scan that has come to its end has handed out every entity that the
/// selection picks and that some source has a row of.
pub proof fn law_scans_leave_nothing_out(
    states: Seq<ScanState>,
    moves: Seq<ScanMove>,
    all: Seq<Seq<EventView>>,
    iid: Iid,
)
    requires
        is_scan(states, moves, all),
        forall|k: int| 0 <= k < all.len() ==> ascends(#[trigger] all[k]),
        all.len() <= usize::MAX,
        states.last().view.phase == Phase::Over,
        states[0].view.sel.picks(iid),
        whole(all, iid).len() > 0,
    ensures
        is_found(states.last().given, iid),
{
    let s = states.last();
    lemma_scan_sound(states, moves, all, states.len() - 1);
    assert(found_by(s) =~= s.given);
    if !is_found(s.given, iid) {
        lemma_whole_some(all, iid, all.len() as int);
        let k = choose|k: int| 0 <= k < all.len() && history(#[trigger] all[k], iid).len() > 0;
        assert(history(left_of(s, k), iid) == history(all[k], iid));
        lemma_history_member(left_of(s, k), iid);
        assert(left_of(s, k).len() == 0);
    }
}

} // verus!
