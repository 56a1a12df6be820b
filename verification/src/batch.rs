//! The writer's loop: which commands share a batch, when a batch is committed,
//! and when the unflushed rows go into a block.

use crate::ast::Statement;
use crate::commit::{batch_wf, tx_wf};
use crate::coord::{lease_block, lease_block_spec, LeaseState};
use crate::effects::sat;
use crate::error::{EngineError, ErrorView};
use crate::metrics::EngineMetrics;
use crate::program::{program_reads, program_reads_spec, SealedTx};
use crate::state::wrapped;
use vstd::prelude::*;

verus! {

/// How the writer groups commits and when it flushes.
#[derive(Clone, Copy, Debug, PartialEq, Eq, Structural)]
pub struct WriterConfig {
    /// How long a batch stays open.
    pub window_ms: u64,
    /// The encoded size at which a batch is committed at once.
    pub max_bytes: usize,
    /// The number of unflushed rows at which a block is written.
    pub max_block_rows: usize,
    /// The size in memory of the unflushed rows at which a block is written.
    pub max_live_bytes: usize,
    /// How long a row stays unflushed; 0 for no limit.
    pub flush_interval_ms: u64,
    /// The number of commands that can wait.
    pub queue_len: usize,
}

impl Default for WriterConfig {
    fn default() -> (r: WriterConfig)
        ensures
            r == (WriterConfig {
                window_ms: 15,
                max_bytes: 8_388_608,
                max_block_rows: 100_000,
                max_live_bytes: 536_870_912,
                flush_interval_ms: 300_000,
                queue_len: 256,
            }),
    {
        WriterConfig {
            window_ms: 15,
            max_bytes: 8_388_608,
            max_block_rows: 100_000,
            max_live_bytes: 536_870_912,
            flush_interval_ms: 300_000,
            queue_len: 256,
        }
    }
}

/// Why a full or closed queue did not take a command.
#[derive(Clone, Copy, Debug, PartialEq, Eq, Structural)]
pub enum QueueFault {
    Full,
    Closed,
}

/// The error of a command that the queue did not take at once.
pub fn queue_error(fault: QueueFault) -> (r: EngineError)
    ensures
        r@ == match fault {
            QueueFault::Full => ErrorView::Backpressure,
            QueueFault::Closed => ErrorView::WriterUnavailable,
        },
{
    match fault {
        QueueFault::Full => EngineError::Backpressure,
        QueueFault::Closed => EngineError::WriterUnavailable,
    }
}

/// What a submission asks for.
pub enum Payload {
    Program(Vec<Statement>),
    /// Prebuilt nodes and edges, which need nothing of the present state.
    Ingest,
}

pub open spec fn payload_reads_spec(p: Payload) -> bool {
    match p {
        Payload::Program(stmts) => program_reads_spec(stmts@),
        Payload::Ingest => false,
    }
}

/// Whether a submission must see what every earlier one did.
pub fn payload_reads(p: &Payload) -> (r: bool)
    ensures
        r == payload_reads_spec(*p),
{
    match p {
        Payload::Program(stmts) => program_reads(stmts),
        Payload::Ingest => false,
    }
}

/// Whether a staged transaction changes the catalog.
pub open spec fn touches_catalog(staged: Seq<SealedTx>) -> bool {
    exists|i: int|
        0 <= i < staged.len() && (#[trigger] staged[i]).effects.catalog_ops@.len() > 0
}

pub fn staged_touches_catalog(staged: &Vec<SealedTx>) -> (r: bool)
    ensures
        r == touches_catalog(staged@),
{
    let mut i: usize = 0;
    while i < staged.len()
        invariant
            i <= staged.len(),
            forall|k: int| 0 <= k < i ==> (#[trigger] staged@[k]).effects.catalog_ops@.len() == 0,
        decreases staged.len() - i,
    {
        if staged[i].effects.catalog_ops.len() > 0 {
            return true;
        }
        i += 1;
    }
    false
}

/// What follows a commit.
#[derive(Clone, Copy, Debug, PartialEq, Eq, Structural)]
pub enum AfterCommit {
    /// The submission that waits is resolved.
    Resolve,
    /// The command that waits goes back to the loop.
    HandOver,
    /// The batch is over.
    End,
}

/// Where a batch stands.
#[derive(Clone, Copy, Debug, PartialEq, Eq, Structural)]
pub enum Phase {
    Receiving,
    Resolving,
    Committing(AfterCommit),
    Over,
}

/// What a batch hears.
pub enum BatchEvent {
    /// A submission came; whether it reads the state.
    Submit { reads: bool },
    /// A compaction was asked for.
    Compact,
    /// The window elapsed or the queue was closed.
    Quiet,
    /// The submission was resolved, into a record of this size.
    Resolved { tx: SealedTx, wire_len: usize },
    /// The submission was refused; its caller has the error.
    Refused,
    /// The staged transactions were answered; why the writer must stop, if it
    /// must.
    Committed { fatal: Option<String> },
}

/// What a batch does next.
pub enum BatchAction {
    /// Wait for a command until the window elapses.
    Receive,
    /// Resolve the submission that waits.
    Resolve,
    /// Commit these.
    Commit(Vec<SealedTx>),
    /// Hand the command that waits back to the loop.
    HandOver,
    /// The batch is over.
    End,
    /// Stop for this reason. Where a command waits, it is refused as fenced.
    Stop { reason: String, refuse_waiting: bool },
}

/// The transactions that wait for their commit, and how large they are.
pub struct Batch {
    pub staged: Vec<SealedTx>,
    pub staged_bytes: usize,
    pub phase: Phase,
}

/// Which events a batch can hear where it stands.
pub open spec fn fits(phase: Phase, event: BatchEvent) -> bool {
    match event {
        BatchEvent::Submit { .. } => phase == Phase::Receiving,
        BatchEvent::Compact => phase == Phase::Receiving,
        BatchEvent::Quiet => phase == Phase::Receiving,
        BatchEvent::Resolved { tx, .. } => phase == Phase::Resolving && tx_wf(tx),
        BatchEvent::Refused => phase == Phase::Resolving,
        BatchEvent::Committed { .. } => phase is Committing,
    }
}

/// Whether the staged transactions must be committed before a submission is
/// resolved: it reads the state, or the graphs themselves may have changed.
pub open spec fn commit_first(staged: Seq<SealedTx>, reads: bool) -> bool {
    staged.len() > 0 && (reads || touches_catalog(staged))
}

/// The batch commits what is staged, and then does `then`.
pub open spec fn commits(
    staged: Seq<SealedTx>,
    then: AfterCommit,
    after: Batch,
    action: BatchAction,
) -> bool {
    &&& after.staged@ == Seq::<SealedTx>::empty()
    &&& after.staged_bytes == 0
    &&& after.phase == Phase::Committing(then)
    &&& (action matches BatchAction::Commit(txs) && txs@ == staged)
}

/// The batch goes on with the same transactions.
pub open spec fn keeps(
    staged: Seq<SealedTx>,
    bytes: usize,
    phase: Phase,
    after: Batch,
) -> bool {
    after.staged@ == staged && after.staged_bytes == bytes && after.phase == phase
}

/// The batch takes nothing more in: what is staged is committed.
pub open spec fn closes(
    staged: Seq<SealedTx>,
    bytes: usize,
    after: Batch,
    action: BatchAction,
) -> bool {
    if staged.len() > 0 {
        commits(staged, AfterCommit::End, after, action)
    } else {
        keeps(staged, bytes, Phase::Over, after) && action is End
    }
}

/// The batch goes on after a submission was dealt with, unless it is large
/// enough.
pub open spec fn goes_on(
    staged: Seq<SealedTx>,
    bytes: usize,
    cfg: WriterConfig,
    after: Batch,
    action: BatchAction,
) -> bool {
    if bytes >= cfg.max_bytes {
        closes(staged, bytes, after, action)
    } else {
        keeps(staged, bytes, Phase::Receiving, after) && action is Receive
    }
}

/// One step of a batch.
pub open spec fn batch_step(
    before: Batch,
    cfg: WriterConfig,
    event: BatchEvent,
    after: Batch,
    action: BatchAction,
) -> bool {
    let staged = before.staged@;
    let bytes = before.staged_bytes;
    match event {
        BatchEvent::Submit { reads } => if commit_first(staged, reads) {
            commits(staged, AfterCommit::Resolve, after, action)
        } else {
            keeps(staged, bytes, Phase::Resolving, after) && action is Resolve
        },
        BatchEvent::Compact => if staged.len() > 0 {
            commits(staged, AfterCommit::HandOver, after, action)
        } else {
            keeps(staged, bytes, Phase::Over, after) && action is HandOver
        },
        BatchEvent::Quiet => closes(staged, bytes, after, action),
        BatchEvent::Resolved { tx, wire_len } => goes_on(
            staged.push(tx),
            sat(bytes + wire_len),
            cfg,
            after,
            action,
        ),
        BatchEvent::Refused => goes_on(staged, bytes, cfg, after, action),
        BatchEvent::Committed { fatal: Some(why) } => {
            &&& keeps(staged, bytes, Phase::Over, after)
            &&& (action matches BatchAction::Stop { reason, refuse_waiting } && reason == why
                && refuse_waiting == (before.phase != Phase::Committing(AfterCommit::End)))
        },
        BatchEvent::Committed { fatal: None } => match before.phase {
            Phase::Committing(AfterCommit::Resolve) => {
                keeps(staged, bytes, Phase::Resolving, after) && action is Resolve
            },
            Phase::Committing(AfterCommit::HandOver) => {
                keeps(staged, bytes, Phase::Over, after) && action is HandOver
            },
            _ => keeps(staged, bytes, Phase::Over, after) && action is End,
        },
    }
}

impl Batch {
    /// A batch that its first submission has just opened.
    pub fn open() -> (r: Batch)
        ensures
            r.staged@ == Seq::<SealedTx>::empty(),
            r.staged_bytes == 0,
            r.phase == Phase::Receiving,
    {
        Batch { staged: Vec::new(), staged_bytes: 0, phase: Phase::Receiving }
    }

    fn commit(&mut self, then: AfterCommit) -> (r: BatchAction)
        ensures
            commits(old(self).staged@, then, *final(self), r),
    {
        let mut staged: Vec<SealedTx> = Vec::new();
        std::mem::swap(&mut staged, &mut self.staged);
        self.staged_bytes = 0;
        self.phase = Phase::Committing(then);
        BatchAction::Commit(staged)
    }

    fn close(&mut self) -> (r: BatchAction)
        ensures
            closes(old(self).staged@, old(self).staged_bytes, *final(self), r),
    {
        if self.staged.len() > 0 {
            self.commit(AfterCommit::End)
        } else {
            self.phase = Phase::Over;
            BatchAction::End
        }
    }

    fn go_on(&mut self, cfg: WriterConfig) -> (r: BatchAction)
        ensures
            goes_on(old(self).staged@, old(self).staged_bytes, cfg, *final(self), r),
    {
        if self.staged_bytes >= cfg.max_bytes {
            self.close()
        } else {
            self.phase = Phase::Receiving;
            BatchAction::Receive
        }
    }

    /// Takes an event in and says what comes next.
    pub fn step(&mut self, cfg: WriterConfig, event: BatchEvent) -> (r: BatchAction)
        requires
            fits(old(self).phase, event),
            batch_wf(old(self).staged@),
        ensures
            batch_step(*old(self), cfg, event, *final(self), r),
            batch_wf(final(self).staged@),
    {
        match event {
            BatchEvent::Submit { reads } => {
                if self.staged.len() > 0 && (reads || staged_touches_catalog(&self.staged)) {
                    self.commit(AfterCommit::Resolve)
                } else {
                    self.phase = Phase::Resolving;
                    BatchAction::Resolve
                }
            },
            BatchEvent::Compact => {
                if self.staged.len() > 0 {
                    self.commit(AfterCommit::HandOver)
                } else {
                    self.phase = Phase::Over;
                    BatchAction::HandOver
                }
            },
            BatchEvent::Quiet => self.close(),
            BatchEvent::Resolved { tx, wire_len } => {
                self.staged.push(tx);
                self.staged_bytes = self.staged_bytes.saturating_add(wire_len);
                self.go_on(cfg)
            },
            BatchEvent::Refused => self.go_on(cfg),
            BatchEvent::Committed { fatal: Some(why) } => {
                let refuse_waiting = match self.phase {
                    Phase::Committing(AfterCommit::End) => false,
                    _ => true,
                };
                self.phase = Phase::Over;
                BatchAction::Stop { reason: why, refuse_waiting }
            },
            BatchEvent::Committed { fatal: None } => {
                match self.phase {
                    Phase::Committing(AfterCommit::Resolve) => {
                        self.phase = Phase::Resolving;
                        BatchAction::Resolve
                    },
                    Phase::Committing(AfterCommit::HandOver) => {
                        self.phase = Phase::Over;
                        BatchAction::HandOver
                    },
                    _ => {
                        self.phase = Phase::Over;
                        BatchAction::End
                    },
                }
            },
        }
    }
}

/// Every submission that must see what came before is resolved with nothing
/// staged.
pub proof fn law_readers_see_all(
    before: Batch,
    cfg: WriterConfig,
    reads: bool,
    after: Batch,
    action: BatchAction,
)
    requires
        batch_step(before, cfg, BatchEvent::Submit { reads }, after, action),
        fits(before.phase, BatchEvent::Submit { reads }),
        reads || touches_catalog(before.staged@),
    ensures
        after.staged@.len() == 0,
        before.staged@.len() > 0 ==> action is Commit,
{
    if before.staged@.len() == 0 {
        assert(after.staged@ == before.staged@);
    }
}

/// Nothing that was staged is lost: after a step it is staged still, or it is
/// what the step commits, in the same order.
pub proof fn law_staged_is_kept(
    before: Batch,
    cfg: WriterConfig,
    event: BatchEvent,
    after: Batch,
    action: BatchAction,
)
    requires
        batch_step(before, cfg, event, after, action),
        fits(before.phase, event),
    ensures
        ({
            let held = match event {
                BatchEvent::Resolved { tx, .. } => before.staged@.push(tx),
                _ => before.staged@,
            };
            match action {
                BatchAction::Commit(txs) => txs@ == held && after.staged@.len() == 0,
                _ => after.staged@ == held,
            }
        }),
{
}

/// A batch that commits or is over holds nothing, whatever it hears.
pub proof fn law_over_is_empty(
    before: Batch,
    cfg: WriterConfig,
    event: BatchEvent,
    after: Batch,
    action: BatchAction,
)
    requires
        batch_step(before, cfg, event, after, action),
        fits(before.phase, event),
        before.phase is Committing || before.phase == Phase::Over ==> before.staged@.len() == 0,
    ensures
        after.phase is Committing || after.phase == Phase::Over ==> after.staged@.len() == 0,
{
}

/// When the oldest unflushed row is due: the time that stands, or from now on;
/// never where nothing is unflushed or no interval is set.
pub open spec fn deadline_spec(
    cfg: WriterConfig,
    rows: usize,
    current: Option<u64>,
    now_ms: u64,
) -> Option<u64> {
    if cfg.flush_interval_ms == 0 || rows == 0 {
        None
    } else {
        match current {
            Some(at) => Some(at),
            None => Some(
                if now_ms + cfg.flush_interval_ms > u64::MAX {
                    u64::MAX
                } else {
                    (now_ms + cfg.flush_interval_ms) as u64
                },
            ),
        }
    }
}

pub fn next_deadline(cfg: WriterConfig, rows: usize, current: Option<u64>, now_ms: u64) -> (r:
    Option<u64>)
    ensures
        r == deadline_spec(cfg, rows, current, now_ms),
{
    if cfg.flush_interval_ms == 0 || rows == 0 {
        return None;
    }
    match current {
        Some(at) => Some(at),
        None => Some(now_ms.saturating_add(cfg.flush_interval_ms)),
    }
}

/// Whether there is enough for a block.
pub open spec fn block_due(cfg: WriterConfig, rows: usize, bytes: usize) -> bool {
    rows >= cfg.max_block_rows || bytes >= cfg.max_live_bytes
}

/// Where the loop stands.
#[derive(Clone, Copy, Debug, PartialEq, Eq, Structural)]
pub enum LoopPhase {
    Waiting,
    InBatch,
    InCompaction,
    /// A block is being written, because there was enough for one.
    FlushingFull,
    /// A block is being written, because the oldest row was due.
    FlushingDue,
    Stopped,
}

/// How the writing of a block went.
#[derive(Clone, Copy, Debug, PartialEq, Eq, Structural)]
pub enum FlushOutcome {
    /// Nothing was unflushed.
    Nothing,
    Written,
    Failed,
}

/// The counts after the writing of a block.
pub open spec fn flush_counted(counts: EngineMetrics, outcome: FlushOutcome) -> EngineMetrics {
    match outcome {
        FlushOutcome::Nothing => counts,
        FlushOutcome::Written => EngineMetrics {
            flush_blocks: wrapped(counts.flush_blocks as int, 1),
            ..counts
        },
        FlushOutcome::Failed => EngineMetrics {
            flush_failures: wrapped(counts.flush_failures as int, 1),
            ..counts
        },
    }
}

/// What the loop hears.
pub enum LoopEvent {
    Submit,
    Compact,
    /// The queue is closed and empty.
    Closed,
    /// The oldest unflushed row is due.
    Due,
    BatchOver { rows: usize, bytes: usize, now_ms: u64 },
    CompactionOver { rows: usize, now_ms: u64 },
    /// The writer must not go on.
    Fatal { reason: String },
    Flushed { outcome: FlushOutcome, rows: usize, now_ms: u64 },
}

/// What the loop does next.
pub enum LoopAction {
    /// Wait for a command, and for the oldest unflushed row to be due.
    Wait(Option<u64>),
    RunBatch,
    RunCompaction,
    WriteBlock,
    /// Publish the reason and refuse every command with it.
    Fence(String),
    Stop,
}

/// The writer's loop.
pub struct WriterLoop {
    pub phase: LoopPhase,
    pub deadline: Option<u64>,
}

pub open spec fn loop_fits(phase: LoopPhase, event: LoopEvent) -> bool {
    match event {
        LoopEvent::Submit | LoopEvent::Compact | LoopEvent::Closed | LoopEvent::Due => phase
            == LoopPhase::Waiting,
        LoopEvent::BatchOver { .. } => phase == LoopPhase::InBatch,
        LoopEvent::CompactionOver { .. } => phase == LoopPhase::InCompaction,
        LoopEvent::Fatal { .. } => phase == LoopPhase::InBatch || phase == LoopPhase::InCompaction,
        LoopEvent::Flushed { .. } => phase == LoopPhase::FlushingFull || phase
            == LoopPhase::FlushingDue,
    }
}

/// One step of the loop. A block that could not be written is counted and
/// tried again at the next occasion.
pub open spec fn loop_step(
    before: WriterLoop,
    counts: EngineMetrics,
    cfg: WriterConfig,
    event: LoopEvent,
    after: WriterLoop,
    counts_after: EngineMetrics,
    action: LoopAction,
) -> bool {
    &&& (!(event is Flushed) ==> counts_after == counts)
    &&& match event {
        LoopEvent::Submit => after == (WriterLoop { phase: LoopPhase::InBatch, ..before })
            && action is RunBatch,
        LoopEvent::Compact => after == (WriterLoop { phase: LoopPhase::InCompaction, ..before })
            && action is RunCompaction,
        LoopEvent::Closed => after == (WriterLoop { phase: LoopPhase::Stopped, ..before })
            && action is Stop,
        LoopEvent::Due => after == (WriterLoop { phase: LoopPhase::FlushingDue, ..before })
            && action is WriteBlock,
        LoopEvent::BatchOver { rows, bytes, now_ms } => if block_due(cfg, rows, bytes) {
            after == (WriterLoop { phase: LoopPhase::FlushingFull, ..before })
                && action is WriteBlock
        } else {
            waits(deadline_spec(cfg, rows, before.deadline, now_ms), after, action)
        },
        LoopEvent::CompactionOver { rows, now_ms } => waits(
            deadline_spec(cfg, rows, before.deadline, now_ms),
            after,
            action,
        ),
        LoopEvent::Fatal { reason } => after == (WriterLoop {
            phase: LoopPhase::Stopped,
            ..before
        }) && (action matches LoopAction::Fence(why) && why == reason),
        LoopEvent::Flushed { outcome, rows, now_ms } => {
            &&& counts_after == flush_counted(counts, outcome)
            &&& waits(
                deadline_spec(
                    cfg,
                    rows,
                    if before.phase == LoopPhase::FlushingDue {
                        None
                    } else {
                        before.deadline
                    },
                    now_ms,
                ),
                after,
                action,
            )
        },
    }
}

pub open spec fn waits(deadline: Option<u64>, after: WriterLoop, action: LoopAction) -> bool {
    after == (WriterLoop { phase: LoopPhase::Waiting, deadline }) && (
    action matches LoopAction::Wait(at) && at == deadline)
}

impl WriterLoop {
    pub fn start() -> (r: WriterLoop)
        ensures
            r == (WriterLoop { phase: LoopPhase::Waiting, deadline: None }),
    {
        WriterLoop { phase: LoopPhase::Waiting, deadline: None }
    }

    fn wait(&mut self, deadline: Option<u64>) -> (r: LoopAction)
        ensures
            waits(deadline, *final(self), r),
    {
        self.phase = LoopPhase::Waiting;
        self.deadline = deadline;
        LoopAction::Wait(deadline)
    }

    /// Takes an event in and says what comes next.
    pub fn step(&mut self, counts: &mut EngineMetrics, cfg: WriterConfig, event: LoopEvent) -> (r:
        LoopAction)
        requires
            loop_fits(old(self).phase, event),
        ensures
            loop_step(*old(self), *old(counts), cfg, event, *final(self), *final(counts), r),
    {
        match event {
            LoopEvent::Submit => {
                self.phase = LoopPhase::InBatch;
                LoopAction::RunBatch
            },
            LoopEvent::Compact => {
                self.phase = LoopPhase::InCompaction;
                LoopAction::RunCompaction
            },
            LoopEvent::Closed => {
                self.phase = LoopPhase::Stopped;
                LoopAction::Stop
            },
            LoopEvent::Due => {
                self.phase = LoopPhase::FlushingDue;
                LoopAction::WriteBlock
            },
            LoopEvent::BatchOver { rows, bytes, now_ms } => {
                if rows >= cfg.max_block_rows || bytes >= cfg.max_live_bytes {
                    self.phase = LoopPhase::FlushingFull;
                    LoopAction::WriteBlock
                } else {
                    let deadline = next_deadline(cfg, rows, self.deadline, now_ms);
                    self.wait(deadline)
                }
            },
            LoopEvent::CompactionOver { rows, now_ms } => {
                let deadline = next_deadline(cfg, rows, self.deadline, now_ms);
                self.wait(deadline)
            },
            LoopEvent::Fatal { reason } => {
                self.phase = LoopPhase::Stopped;
                LoopAction::Fence(reason)
            },
            LoopEvent::Flushed { outcome, rows, now_ms } => {
                match outcome {
                    FlushOutcome::Nothing => {},
                    FlushOutcome::Written => {
                        counts.flush_blocks = counts.flush_blocks.wrapping_add(1);
                    },
                    FlushOutcome::Failed => {
                        counts.flush_failures = counts.flush_failures.wrapping_add(1);
                    },
                }
                let current = match self.phase {
                    LoopPhase::FlushingDue => None,
                    _ => self.deadline,
                };
                let deadline = next_deadline(cfg, rows, current, now_ms);
                self.wait(deadline)
            },
        }
    }
}

/// The timer runs exactly while rows are unflushed and an interval is set; a
/// steady trickle of rows does not put the oldest one off.
pub proof fn law_timer_armed_once(cfg: WriterConfig, rows: usize, current: Option<u64>, now_ms: u64)
    ensures
        deadline_spec(cfg, rows, current, now_ms) is Some <==> cfg.flush_interval_ms > 0 && rows > 0,
        cfg.flush_interval_ms > 0 && rows > 0 && current is Some ==> deadline_spec(
            cfg,
            rows,
            current,
            now_ms,
        ) == current,
{
}

/// How a compaction is answered.
pub enum CompactAck<R> {
    Done(R),
    Failed(EngineError),
    /// Refused, and the writer stops.
    Fenced(String),
}

/// Whether a compaction may run at all; where the lease is gone it is refused
/// before it writes anything.
pub fn admit_compaction<R>(lease: &LeaseState, now: u64) -> (r: Option<CompactAck<R>>)
    ensures
        match lease_block_spec(lease@, now) {
            Some(reason) => r matches Some(CompactAck::Fenced(why)) && why@ == reason,
            None => r is None,
        },
{
    match lease_block(lease, now) {
        Some(reason) => Some(CompactAck::Fenced(reason)),
        None => None,
    }
}

/// The answer to a compaction that has run: where it succeeded the lease is
/// looked at again, and a failure is passed on as it is.
pub fn compact_ack<R>(outcome: Result<R, EngineError>, lease: &LeaseState, now: u64) -> (r:
    CompactAck<R>)
    ensures
        match outcome {
            Err(e) => r == CompactAck::<R>::Failed(e),
            Ok(report) => match lease_block_spec(lease@, now) {
                Some(reason) => r matches CompactAck::Fenced(why) && why@ == reason,
                None => r == CompactAck::Done(report),
            },
        },
{
    match outcome {
        Ok(report) => match lease_block(lease, now) {
            Some(reason) => CompactAck::Fenced(reason),
            None => CompactAck::Done(report),
        },
        Err(e) => CompactAck::Failed(e),
    }
}

} // verus!
