//! A node that follows the log: it reads what the writer appended and applies
//! it.

use crate::coord::fence::{after_fence, live_at, FenceMap};
use crate::error::{EngineError, ErrorView};
use crate::fold::{lemma_try_fold_all, lemma_try_fold_fails, lemma_try_fold_step, try_fold};
use crate::node::{AppliedProgress, ProgressState};
use crate::replay::{
    apply_decoded_log_record, apply_record, decode_effects, decode_log_record, raw_wf,
    RawLogRecord,
};
use crate::state::{GraphsState, StateView};
use crate::types::{offset_error, LogPosition, EPOCH_SPAN};
use vstd::prelude::*;

verus! {

/// A follower: the state that it keeps, and how far it has read.
pub struct FollowerState {
    pub state: GraphsState,
    pub cursor: LogPosition,
    /// How many records are read at a time.
    pub batch_records: u64,
    pub progress: ProgressState,
    /// The fences, as far as they were known at the last empty read.
    pub fences: FenceMap,
}

/// What a follower has done.
#[verifier::ext_equal]
pub struct FollowView {
    pub graphs: StateView,
    pub cursor: LogPosition,
    pub applied: AppliedProgress,
    pub log_head: LogPosition,
    /// How many records of this batch were applied.
    pub count: int,
}

/// Where a follower stopped, and why.
pub struct FollowStop {
    pub at: FollowView,
    pub error: ErrorView,
}

/// What came of one read.
#[derive(Clone, Copy, Debug, PartialEq, Eq, Structural)]
pub enum RangeOutcome {
    /// So many records were applied.
    Applied(usize),
    /// The follower went on to the next epoch and reads again at once.
    Jumped,
}

/// What is to be done after an empty read.
#[derive(Clone, Copy, Debug, PartialEq, Eq, Structural)]
pub enum EmptyRead {
    Jumped,
    /// Nothing explains the empty read yet: the latest manifest must.
    AskManifest,
}

pub open spec fn position_after(p: LogPosition) -> Result<LogPosition, ErrorView> {
    if p.offset() + 1 < EPOCH_SPAN {
        Ok(LogPosition { packed: (p.packed + 1) as u64 })
    } else {
        Err(offset_error())
    }
}

/// The follower after one more record. A record behind a fence does not count:
/// it is passed over, and the last transaction stays the last.
pub open spec fn follow_step(fences: Map<u16, u64>, v: FollowView, r: (LogPosition, RawLogRecord)) -> Result<
    FollowView,
    FollowStop,
> {
    match position_after(r.0) {
        Err(error) => Err(FollowStop { at: v, error }),
        Ok(next) => if !live_at(fences, r.0) {
            Ok(
                FollowView {
                    graphs: v.graphs,
                    cursor: next,
                    applied: AppliedProgress { tx_id: v.applied.tx_id, log_position: next },
                    log_head: next,
                    count: v.count,
                },
            )
        } else {
            match decode_effects(r.1.effects@) {
                Err(error) => Err(FollowStop { at: v, error }),
                Ok(effects) => match apply_record(v.graphs, effects) {
                    Err(error) => Err(FollowStop { at: v, error }),
                    Ok(graphs) => Ok(
                        FollowView {
                            graphs,
                            cursor: next,
                            applied: AppliedProgress { tx_id: r.1.tx_id, log_position: next },
                            log_head: next,
                            count: v.count + 1,
                        },
                    ),
                },
            }
        },
    }
}

/// The follower after a batch of records.
pub open spec fn follow_all(
    fences: Map<u16, u64>,
    v: FollowView,
    records: Seq<(LogPosition, RawLogRecord)>,
) -> Result<FollowView, FollowStop> {
    try_fold(
        records,
        v,
        |v: FollowView, r: (LogPosition, RawLogRecord)| follow_step(fences, v, r),
    )
}

pub open spec fn records_wf(records: Seq<(LogPosition, RawLogRecord)>) -> bool {
    forall|i: int| 0 <= i < records.len() ==> raw_wf((#[trigger] records[i]).1.effects@)
}

impl FollowerState {
    pub open spec fn wf(&self) -> bool {
        self.state.wf() && self.fences.wf()
    }

    pub open spec fn seen(&self, count: int) -> FollowView {
        FollowView {
            graphs: self.state@,
            cursor: self.cursor,
            applied: self.progress.applied,
            log_head: self.progress.log_head,
            count,
        }
    }

    /// All but the progress, the cursor and the state is the same; a failure
    /// that was published stays published.
    pub open spec fn same_setup(&self, other: FollowerState) -> bool {
        self.batch_records == other.batch_records && self.fences == other.fences
            && self.progress.follower_error == other.progress.follower_error
    }

    /// The positions to read: from the cursor to a batch further.
    pub fn range_to_read(&self) -> (r: Result<(LogPosition, LogPosition), EngineError>)
        ensures
            match r {
                Ok((from, to)) => from == self.cursor && to.packed == self.cursor.packed
                    + self.batch_records && self.cursor.offset() + self.batch_records < EPOCH_SPAN,
                Err(e) => self.cursor.offset() + self.batch_records >= EPOCH_SPAN && e@
                    == offset_error(),
            },
    {
        match self.cursor.advance(self.batch_records) {
            Ok(upper) => Ok((self.cursor, upper)),
            Err(e) => Err(e),
        }
    }

    fn publish(&mut self, tx_id: u64, log_position: LogPosition, log_head: LogPosition)
        ensures
            final(self).progress.applied == (AppliedProgress { tx_id, log_position }),
            final(self).progress.log_head == log_head,
            final(self).same_setup(*old(self)),
            final(self).state == old(self).state,
            final(self).cursor == old(self).cursor,
    {
        self.progress.applied = AppliedProgress { tx_id, log_position };
        self.progress.log_head = log_head;
    }

    /// An empty read, with the fences as they are now: at a fence the follower
    /// goes on to the next epoch.
    pub fn on_empty(&mut self, fences: FenceMap) -> (r: Result<EmptyRead, EngineError>)
        requires
            old(self).wf(),
            fences.wf(),
        ensures
            final(self).wf(),
            final(self).fences == fences,
            final(self).batch_records == old(self).batch_records,
            final(self).state == old(self).state,
            final(self).progress.follower_error == old(self).progress.follower_error,
            final(self).progress.applied == old(self).progress.applied,
            match r {
                Ok(EmptyRead::Jumped) => !live_at(fences@, old(self).cursor) && final(self).cursor
                    == after_fence(old(self).cursor) && final(self).progress.log_head
                    == final(self).cursor,
                Ok(EmptyRead::AskManifest) => live_at(fences@, old(self).cursor)
                    && final(self).cursor == old(self).cursor && final(self).progress
                    == old(self).progress,
                Err(e) => !live_at(fences@, old(self).cursor) && old(self).cursor.epoch()
                    == u16::MAX && e@ == ErrorView::EpochExhausted && final(self).cursor
                    == old(self).cursor && final(self).progress == old(self).progress,
            },
    {
        self.fences = fences;
        match self.fences.jump(self.cursor) {
            Err(e) => Err(e),
            Ok(Some(next)) => {
                self.cursor = next;
                let applied = self.progress.applied;
                self.publish(applied.tx_id, applied.log_position, next);
                Ok(EmptyRead::Jumped)
            },
            Ok(None) => Ok(EmptyRead::AskManifest),
        }
    }

    /// What the latest manifest says of an empty read: where it covers more of
    /// the log than the follower has read, the records between are gone.
    pub fn on_manifest(&mut self, watermark: Option<LogPosition>) -> (r: Result<
        RangeOutcome,
        EngineError,
    >)
        requires
            old(self).wf(),
        ensures
            final(self).wf(),
            final(self).same_setup(*old(self)),
            final(self).state == old(self).state,
            final(self).cursor == old(self).cursor,
            final(self).progress.applied == old(self).progress.applied,
            match r {
                Err(e) => (watermark matches Some(w) && old(self).cursor.packed < w.packed && e@
                    == (ErrorView::LogGap { expected: old(self).cursor, actual: w }))
                    && final(self).progress == old(self).progress,
                Ok(outcome) => {
                    &&& outcome == RangeOutcome::Applied(0)
                    &&& (watermark matches Some(w) ==> w.packed <= old(self).cursor.packed)
                    &&& final(self).progress.log_head == old(self).cursor
                },
            },
    {
        match watermark {
            Some(w) => {
                if self.cursor.packed < w.packed {
                    return Err(EngineError::LogGap { expected: self.cursor, actual: w });
                }
            },
            None => {},
        }
        let applied = self.progress.applied;
        let head = self.cursor;
        self.publish(applied.tx_id, applied.log_position, head);
        Ok(RangeOutcome::Applied(0))
    }

    /// Applies the records that were read. They must begin at the cursor. A
    /// record that cannot be applied leaves the follower where it was before
    /// that record.
    pub fn apply_records(&mut self, records: Vec<(LogPosition, RawLogRecord)>) -> (r: Result<
        RangeOutcome,
        EngineError,
    >)
        requires
            old(self).wf(),
            records_wf(records@),
            records@.len() > 0,
        ensures
            final(self).wf(),
            final(self).same_setup(*old(self)),
            if records@[0].0 != old(self).cursor {
                &&& final(self).seen(0) == old(self).seen(0)
                &&& (r matches Err(e) && e@ == (ErrorView::LogGap {
                    expected: old(self).cursor,
                    actual: records@[0].0,
                }))
            } else {
                match follow_all(old(self).fences@, old(self).seen(0), records@) {
                    Ok(v) => (r matches Ok(RangeOutcome::Applied(n)) && final(self).seen(n as int)
                        == v),
                    Err(stop) => (r matches Err(e) && e@ == stop.error) && final(self).seen(
                        stop.at.count,
                    ) == stop.at,
                }
            },
    {
        if records[0].0.packed != self.cursor.packed {
            return Err(EngineError::LogGap { expected: self.cursor, actual: records[0].0 });
        }
        let ghost all = records@;
        let ghost start = self.seen(0);
        let ghost fences = self.fences@;
        let ghost step = |v: FollowView, r: (LogPosition, RawLogRecord)| follow_step(fences, v, r);
        let total: usize = records.len();
        let mut applied: usize = 0;
        proof {
            lemma_try_fold_all(all, start, step);
        }
        for pair in it: records
            invariant
                it.seq() == all,
                all.len() == total,
                records_wf(all),
                self.wf(),
                self.same_setup(*old(self)),
                fences == old(self).fences@,
                all == records@,
                all[0].0 == old(self).cursor,
                start == old(self).seen(0),
                applied <= it.index(),
                step == (|v: FollowView, r: (LogPosition, RawLogRecord)|
                    follow_step(fences, v, r)),
                try_fold(all.subrange(0, it.index() as int), start, step) == Ok::<
                    FollowView,
                    FollowStop,
                >(self.seen(applied as int)),
        {
            let ghost i = it.index() as int;
            proof {
                assert(all[i] == pair);
                lemma_try_fold_step(all, start, step, i);
                if try_fold(all.subrange(0, i + 1), start, step) is Err {
                    lemma_try_fold_fails(all, start, step, i + 1);
                }
            }
            let (position, record) = pair;
            let next = match position.advance(1) {
                Ok(next) => next,
                Err(e) => {
                    return Err(e);
                },
            };
            if !self.fences.is_live(position) {
                self.cursor = next;
                let tx_id: u64 = self.progress.applied.tx_id;
                self.publish(tx_id, next, next);
            } else {
                let tx_id: u64 = record.tx_id;
                let decoded = match decode_log_record(record) {
                    Ok(decoded) => decoded,
                    Err(e) => {
                        return Err(e);
                    },
                };
                match apply_decoded_log_record(&mut self.state, decoded) {
                    Ok(()) => {},
                    Err(e) => {
                        return Err(e);
                    },
                }
                self.cursor = next;
                self.publish(tx_id, next, next);
                applied += 1;
            }
        }
        proof {
            lemma_try_fold_all(all, start, step);
        }
        Ok(RangeOutcome::Applied(applied))
    }

    /// Publishes why the follower stopped; the first failure stays.
    pub fn fail(&mut self, text: String)
        ensures
            final(self).state == old(self).state,
            final(self).cursor == old(self).cursor,
            final(self).fences == old(self).fences,
            final(self).batch_records == old(self).batch_records,
            final(self).progress.applied == old(self).progress.applied,
            final(self).progress.log_head == old(self).progress.log_head,
            final(self).progress.follower_error == (match old(self).progress.follower_error {
                Some(first) => Some(first),
                None => Some(text),
            }),
    {
        if self.progress.follower_error.is_none() {
            self.progress.follower_error = Some(text);
        }
    }
}

/// How many records a poll applied, from its first read and, where that went on
/// to another epoch, from a second one. There is no third.
pub fn applied_by_poll(first: RangeOutcome, second: Option<RangeOutcome>) -> (r: usize)
    ensures
        r == (match (first, second) {
            (RangeOutcome::Applied(n), _) => n,
            (RangeOutcome::Jumped, Some(RangeOutcome::Applied(n))) => n,
            (RangeOutcome::Jumped, _) => 0,
        }),
{
    match (first, second) {
        (RangeOutcome::Applied(n), _) => n,
        (RangeOutcome::Jumped, Some(RangeOutcome::Applied(n))) => n,
        (RangeOutcome::Jumped, _) => 0,
    }
}

/// How long a follower waits after a read: not at all while there is more.
pub fn poll_delay_after(applied: usize, interval: std::time::Duration) -> (r: Option<
    std::time::Duration,
>)
    ensures
        r == (if applied == 0 {
            Some(interval)
        } else {
            None
        }),
{
    if applied == 0 {
        Some(interval)
    } else {
        None
    }
}

proof fn lemma_follow_moves(
    fences: Map<u16, u64>,
    v: FollowView,
    records: Seq<(LogPosition, RawLogRecord)>,
    n: int,
)
    requires
        0 <= n <= records.len(),
        forall|i: int, j: int|
            0 <= i < j < records.len() ==> (#[trigger] records[i]).0.packed < (
            #[trigger] records[j]).0.packed,
        records.len() > 0 ==> v.cursor.packed <= records[0].0.packed,
    ensures
        ({
            let step = |v: FollowView, r: (LogPosition, RawLogRecord)| follow_step(fences, v, r);
            match try_fold(records.subrange(0, n), v, step) {
                Ok(w) => {
                    &&& v.cursor.packed <= w.cursor.packed
                    &&& (n > 0 ==> w.cursor.packed == records[n - 1].0.packed + 1
                        && w.applied.log_position == w.cursor && w.log_head == w.cursor)
                },
                Err(stop) => v.cursor.packed <= stop.at.cursor.packed,
            }
        }),
    decreases n,
{
    let step = |v: FollowView, r: (LogPosition, RawLogRecord)| follow_step(fences, v, r);
    lemma_try_fold_all(records, v, step);
    if n > 0 {
        lemma_follow_moves(fences, v, records, n - 1);
        lemma_try_fold_step(records, v, step, n - 1);
        if n > 1 {
            assert(records[n - 2].0.packed < records[n - 1].0.packed);
        }
    } else {
        assert(records.subrange(0, 0) =~= Seq::<(LogPosition, RawLogRecord)>::empty());
    }
}

/// A follower never goes back: whatever comes of a batch, the cursor is where it
/// was or further. After a whole batch it stands right behind the last record,
/// and that is what it says it has applied.
pub proof fn law_cursor_moves_on(
    fences: Map<u16, u64>,
    v: FollowView,
    records: Seq<(LogPosition, RawLogRecord)>,
)
    requires
        records.len() > 0,
        records[0].0 == v.cursor,
        forall|i: int, j: int|
            0 <= i < j < records.len() ==> (#[trigger] records[i]).0.packed < (
            #[trigger] records[j]).0.packed,
    ensures
        match follow_all(fences, v, records) {
            Ok(w) => w.cursor.packed == records.last().0.packed + 1 && w.applied.log_position
                == w.cursor && w.log_head == w.cursor,
            Err(stop) => stop.at.cursor.packed >= v.cursor.packed,
        },
{
    lemma_follow_moves(fences, v, records, records.len() as int);
    assert(records.subrange(0, records.len() as int) =~= records);
}

/// Records behind a fence change nothing but the position.
pub proof fn law_dead_records_are_not_applied(
    fences: Map<u16, u64>,
    v: FollowView,
    r: (LogPosition, RawLogRecord),
)
    requires
        !live_at(fences, r.0),
    ensures
        match follow_step(fences, v, r) {
            Ok(w) => w.graphs == v.graphs && w.applied.tx_id == v.applied.tx_id && w.count
                == v.count,
            Err(stop) => stop.at == v,
        },
{
}

/// A record at a position that no fence cuts off is applied, exactly where it can
/// be: the follower then holds what the record makes of its state, names the
/// record's transaction as the last and stands right behind the record. Where it
/// cannot, the follower stays as it was.
pub proof fn law_live_records_are_applied(
    fences: Map<u16, u64>,
    v: FollowView,
    r: (LogPosition, RawLogRecord),
)
    requires
        !fences.dom().contains(r.0.epoch()) || r.0.offset() < fences[r.0.epoch()],
    ensures
        follow_step(fences, v, r) is Ok <==> r.0.offset() + 1 < EPOCH_SPAN && (decode_effects(
            r.1.effects@,
        ) matches Ok(effects) && apply_record(v.graphs, effects) is Ok),
        follow_step(fences, v, r) matches Ok(w) ==> {
            &&& apply_record(v.graphs, decode_effects(r.1.effects@)->Ok_0) == Ok::<
                StateView,
                ErrorView,
            >(w.graphs)
            &&& w.applied.tx_id == r.1.tx_id
            &&& w.cursor.packed == r.0.packed + 1
            &&& w.applied.log_position == w.cursor
            &&& w.log_head == w.cursor
            &&& w.count == v.count + 1
        },
        follow_step(fences, v, r) matches Err(stop) ==> stop.at == v,
{
}

} // verus!
