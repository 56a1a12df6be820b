//! Group commit: a batch is made durable, applied, and acknowledged, in this
//! order and under the writer's lease.

use crate::coord::{lease_block, lease_block_spec, LeaseState};
use crate::effects::{CatalogOp, CatalogOpView, TxReceipt};
use crate::error::{EngineError, ErrorView, IndexError, IndexErrorView};
use crate::event::{events_wf, Event};
use crate::fold::{
    fold, lemma_fold_all, lemma_fold_step, lemma_try_fold_all, lemma_try_fold_fails,
    lemma_try_fold_step, try_fold,
};
use crate::metrics::EngineMetrics;
use crate::node::ProgressState;
use crate::program::SealedTx;
use crate::security::SECURITY_GRAPH;
use crate::state::{
    law_appending_changes_one_tail, state_appended, wrapped, GraphsState, StateView, TableKind,
    TableView, DEFAULT_GRAPH, META_GRAPH,
};
use crate::text::{concat2, concat3, concat4, signed_decimal, signed_decimal_text, text_is, views};
use crate::types::{LogPosition, EPOCH_SPAN};
use vstd::prelude::*;

verus! {

/// What the writer works on.
pub struct WriterCore {
    pub state: GraphsState,
    pub next_tx_id: u64,
    /// The number of the next manifest, of a flush or of a compaction.
    pub next_block_id: u64,
    /// Where the durable part of the log ends.
    pub durable_watermark: LogPosition,
    pub progress: ProgressState,
    pub metrics: EngineMetrics,
}

/// How the writer answers a batch: each transaction in turn, and why the writer
/// must stop, if it must.
pub struct CommitReport {
    pub acks: Vec<Result<TxReceipt, EngineError>>,
    pub fatal: Option<String>,
}

/// A catalog change leaves the default graph and the catalog.
pub open spec fn op_ok(op: CatalogOpView) -> bool {
    op matches CatalogOpView::DropGraph(n) ==> n != DEFAULT_GRAPH@ && n != META_GRAPH@
}

pub open spec fn tx_wf(tx: SealedTx) -> bool {
    tx.effects.wf() && forall|i: int|
        0 <= i < tx.effects.catalog_ops@.len() ==> op_ok((#[trigger] tx.effects.catalog_ops@[i])@)
}

pub open spec fn batch_wf(staged: Seq<SealedTx>) -> bool {
    forall|i: int| 0 <= i < staged.len() ==> tx_wf(#[trigger] staged[i])
}

/// Where an application stopped, and why.
pub struct ApplyStop {
    pub state: StateView,
    pub text: Seq<char>,
}

/// The text of a failure to apply.
pub open spec fn fault_text_spec(e: ErrorView) -> Seq<char> {
    match e {
        ErrorView::UnknownGraph(g) => "unknown graph '"@ + g + "'"@,
        ErrorView::Index(IndexErrorView::OutOfOrderEvent { last, got }) =>
            "out-of-order event: system time "@ + signed_decimal(got.us as int) + " is before "@
            + signed_decimal(last.us as int),
        ErrorView::Index(IndexErrorView::Other(text)) => text,
        _ => "apply failed"@,
    }
}

fn fault_text(e: &EngineError) -> (r: String)
    ensures
        r@ == fault_text_spec(e@),
{
    match e {
        EngineError::UnknownGraph(g) => concat3("unknown graph '", g.as_str(), "'"),
        EngineError::Index(IndexError::OutOfOrderEvent { last, got }) => concat4(
            "out-of-order event: system time ",
            signed_decimal_text(got.us).as_str(),
            " is before ",
            signed_decimal_text(last.us).as_str(),
        ),
        EngineError::Index(IndexError::Other(text)) => text.clone(),
        _ => "apply failed".to_owned(),
    }
}

/// The state after a change of the catalog.
pub open spec fn op_applied(s: StateView, op: CatalogOpView) -> StateView {
    match op {
        CatalogOpView::CreateGraph(n) => StateView {
            graphs: s.graphs.insert(n, TableView::empty()),
            ..s
        },
        CatalogOpView::DropGraph(n) => StateView { graphs: s.graphs.remove(n), ..s },
    }
}

/// The state with one more event, or where it stopped.
pub open spec fn event_applied(
    s: StateView,
    graph: Seq<char>,
    kind: TableKind,
    e: Event,
) -> Result<StateView, ApplyStop> {
    match state_appended(s, graph, kind, e) {
        Ok(s2) => Ok(s2),
        Err(err) => Err(ApplyStop { state: s, text: fault_text_spec(err) }),
    }
}

/// The state after the events of one table.
pub open spec fn events_applied(
    s: StateView,
    graph: Seq<char>,
    kind: TableKind,
    events: Seq<Event>,
) -> Result<StateView, ApplyStop> {
    try_fold(events, s, |s: StateView, e: Event| event_applied(s, graph, kind, e))
}

/// The state after a transaction: its catalog changes, its node events, its
/// edge events. A transaction on the policy graph changes the policy's number.
pub open spec fn tx_applied(s: StateView, tx: SealedTx) -> Result<StateView, ApplyStop> {
    let s1 = fold(
        views(tx.effects.catalog_ops@),
        s,
        |s: StateView, op: CatalogOpView| op_applied(s, op),
    );
    let nodes = tx.effects.nodes@;
    let edges = tx.effects.edges@;
    if !s1.graphs.dom().contains(tx.graph@) {
        Err(ApplyStop { state: s1, text: fault_text_spec(ErrorView::UnknownGraph(tx.graph@)) })
    } else {
        match events_applied(s1, tx.graph@, TableKind::Nodes, nodes) {
            Err(stop) => Err(stop),
            Ok(s2) => match events_applied(s2, tx.graph@, TableKind::Edges, edges) {
                Err(stop) => Err(stop),
                Ok(s3) => Ok(
                    if tx.graph@ == SECURITY_GRAPH@ && (nodes.len() > 0 || edges.len() > 0) {
                        StateView { security_epoch: wrapped(s3.security_epoch as int, 1), ..s3 }
                    } else {
                        s3
                    },
                ),
            },
        }
    }
}

/// The state after a batch.
pub open spec fn batch_applied(s: StateView, staged: Seq<SealedTx>) -> Result<
    StateView,
    ApplyStop,
> {
    try_fold(staged, s, |s: StateView, tx: SealedTx| tx_applied(s, tx))
}

fn apply_ops(state: &mut GraphsState, ops: Vec<CatalogOp>)
    requires
        old(state).wf(),
        forall|i: int| 0 <= i < ops@.len() ==> op_ok((#[trigger] ops@[i])@),
    ensures
        final(state).wf(),
        final(state)@ == fold(
            views(ops@),
            old(state)@,
            |s: StateView, op: CatalogOpView| op_applied(s, op),
        ),
{
    let ghost ops0 = ops@;
    let ghost all = views(ops@);
    let ghost start = state@;
    let ghost step = |s: StateView, op: CatalogOpView| op_applied(s, op);
    proof {
        lemma_fold_all(all, start, step);
    }
    for op in it: ops
        invariant
            it.seq() == ops0,
            all == views(ops0),
            state.wf(),
            forall|i: int| 0 <= i < ops0.len() ==> op_ok((#[trigger] ops0[i])@),
            step == (|s: StateView, op: CatalogOpView| op_applied(s, op)),
            state@ == fold(all.subrange(0, it.index() as int), start, step),
    {
        let ghost i = it.index() as int;
        proof {
            lemma_fold_step(all, start, step, i);
            assert(ops0[i] == op);
            assert(all[i] == op@);
        }
        match op {
            CatalogOp::CreateGraph(name) => {
                state.insert_graph(name);
            },
            CatalogOp::DropGraph(name) => {
                state.remove_graph(name.as_str());
            },
        }
    }
    proof {
        lemma_fold_all(all, start, step);
    }
}

fn apply_events(state: &mut GraphsState, graph: &String, kind: TableKind, events: Vec<Event>) -> (r:
    Result<(), String>)
    requires
        old(state).wf(),
        events_wf(events@),
    ensures
        final(state).wf(),
        match r {
            Ok(()) => events_applied(old(state)@, graph@, kind, events@) == Ok::<
                StateView,
                ApplyStop,
            >(final(state)@),
            Err(text) => events_applied(old(state)@, graph@, kind, events@) == Err::<
                StateView,
                ApplyStop,
            >(ApplyStop { state: final(state)@, text: text@ }),
        },
{
    let ghost all = events@;
    let ghost start = state@;
    let ghost step = |s: StateView, e: Event| event_applied(s, graph@, kind, e);
    proof {
        lemma_try_fold_all(all, start, step);
    }
    for event in it: events
        invariant
            it.seq() == all,
            all == events@,
            events_wf(all),
            state.wf(),
            start == old(state)@,
            step == (|s: StateView, e: Event| event_applied(s, graph@, kind, e)),
            try_fold(all.subrange(0, it.index() as int), start, step) == Ok::<
                StateView,
                ApplyStop,
            >(state@),
    {
        let ghost i = it.index() as int;
        proof {
            assert(all[i] == event);
            lemma_try_fold_step(all, start, step, i);
            if try_fold(all.subrange(0, i + 1), start, step) is Err {
                lemma_try_fold_fails(all, start, step, i + 1);
            }
        }
        match state.append(graph.as_str(), kind, event) {
            Ok(()) => {},
            Err(e) => {
                return Err(fault_text(&e));
            },
        }
    }
    proof {
        lemma_try_fold_all(all, start, step);
    }
    Ok(())
}

fn apply_tx(state: &mut GraphsState, tx: SealedTx) -> (r: Result<(), String>)
    requires
        old(state).wf(),
        tx_wf(tx),
    ensures
        final(state).wf(),
        match r {
            Ok(()) => tx_applied(old(state)@, tx) == Ok::<StateView, ApplyStop>(final(state)@),
            Err(text) => tx_applied(old(state)@, tx) == Err::<StateView, ApplyStop>(
                ApplyStop { state: final(state)@, text: text@ },
            ),
        },
{
    let graph = tx.graph;
    let effects = tx.effects;
    let touches = text_is(&graph, SECURITY_GRAPH) && (effects.nodes.len() > 0
        || effects.edges.len() > 0);
    apply_ops(state, effects.catalog_ops);
    if !state.has_graph(graph.as_str()) {
        return Err(concat3("unknown graph '", graph.as_str(), "'"));
    }
    match apply_events(state, &graph, TableKind::Nodes, effects.nodes) {
        Ok(()) => {},
        Err(text) => {
            return Err(text);
        },
    }
    match apply_events(state, &graph, TableKind::Edges, effects.edges) {
        Ok(()) => {},
        Err(text) => {
            return Err(text);
        },
    }
    if touches {
        state.security_epoch = state.security_epoch.wrapping_add(1);
    }
    Ok(())
}

/// Applies a durable batch to the state; stops at the first transaction that
/// cannot be applied.
pub fn apply(state: &mut GraphsState, staged: Vec<SealedTx>) -> (r: Result<(), String>)
    requires
        old(state).wf(),
        batch_wf(staged@),
    ensures
        final(state).wf(),
        match r {
            Ok(()) => batch_applied(old(state)@, staged@) == Ok::<StateView, ApplyStop>(
                final(state)@,
            ),
            Err(text) => batch_applied(old(state)@, staged@) == Err::<StateView, ApplyStop>(
                ApplyStop { state: final(state)@, text: text@ },
            ),
        },
{
    let ghost all = staged@;
    let ghost start = state@;
    let ghost step = |s: StateView, tx: SealedTx| tx_applied(s, tx);
    proof {
        lemma_try_fold_all(all, start, step);
    }
    for tx in it: staged
        invariant
            it.seq() == all,
            all == staged@,
            batch_wf(all),
            state.wf(),
            start == old(state)@,
            step == (|s: StateView, tx: SealedTx| tx_applied(s, tx)),
            try_fold(all.subrange(0, it.index() as int), start, step) == Ok::<
                StateView,
                ApplyStop,
            >(state@),
    {
        let ghost i = it.index() as int;
        proof {
            assert(all[i] == tx);
            lemma_try_fold_step(all, start, step, i);
            if try_fold(all.subrange(0, i + 1), start, step) is Err {
                lemma_try_fold_fails(all, start, step, i + 1);
            }
        }
        match apply_tx(state, tx) {
            Ok(()) => {},
            Err(text) => {
                return Err(text);
            },
        }
    }
    proof {
        lemma_try_fold_all(all, start, step);
    }
    Ok(())
}

/// Every transaction is answered with this error.
pub open spec fn all_failed(acks: Seq<Result<TxReceipt, EngineError>>, n: int, e: ErrorView) -> bool {
    acks.len() == n && forall|i: int|
        0 <= i < n ==> (#[trigger] acks[i] matches Err(err) && err@ == e)
}

/// Every transaction is answered with its receipt.
pub open spec fn all_committed(
    acks: Seq<Result<TxReceipt, EngineError>>,
    staged: Seq<SealedTx>,
) -> bool {
    acks.len() == staged.len() && forall|i: int|
        0 <= i < staged.len() ==> (#[trigger] acks[i] matches Ok(r) && r == staged[i].receipt)
}

/// Refuses a whole batch because the lease is gone.
pub fn fence_all(n: usize, reason: String) -> (r: CommitReport)
    ensures
        all_failed(r.acks@, n as int, ErrorView::WriterFenced(reason@)),
        r.fatal == Some(reason),
{
    let mut acks: Vec<Result<TxReceipt, EngineError>> = Vec::new();
    while acks.len() < n
        invariant
            acks@.len() <= n,
            forall|i: int|
                0 <= i < acks@.len() ==> (#[trigger] acks@[i] matches Err(err) && err@
                    == ErrorView::WriterFenced(reason@)),
        decreases n - acks.len(),
    {
        acks.push(Err(EngineError::WriterFenced(reason.clone())));
    }
    CommitReport { acks, fatal: Some(reason) }
}

fn commit_failed(n: usize, text: &String) -> (r: Vec<Result<TxReceipt, EngineError>>)
    ensures
        all_failed(r@, n as int, ErrorView::CommitFailed(text@)),
{
    let mut acks: Vec<Result<TxReceipt, EngineError>> = Vec::new();
    while acks.len() < n
        invariant
            acks@.len() <= n,
            forall|i: int|
                0 <= i < acks@.len() ==> (#[trigger] acks@[i] matches Err(err) && err@
                    == ErrorView::CommitFailed(text@)),
        decreases n - acks.len(),
    {
        acks.push(Err(EngineError::CommitFailed(text.clone())));
    }
    acks
}

/// Whether a batch may be written to the log at all. Where the lease is gone,
/// the batch is refused before anything is durable.
pub fn begin_commit(staged: &Vec<SealedTx>, lease: &LeaseState, now: u64) -> (r: Option<
    CommitReport,
>)
    ensures
        match r {
            None => lease_block_spec(lease@, now) is None,
            Some(report) => lease_block_spec(lease@, now) is Some && all_failed(
                report.acks@,
                staged@.len() as int,
                ErrorView::WriterFenced(lease_block_spec(lease@, now)->0),
            ) && (report.fatal matches Some(f) && f@ == lease_block_spec(lease@, now)->0),
        },
{
    match lease_block(lease, now) {
        Some(reason) => Some(fence_all(staged.len(), reason)),
        None => None,
    }
}

/// The number of events of a batch, wrapping around.
pub open spec fn event_count(staged: Seq<SealedTx>) -> u64 {
    fold(
        staged,
        0u64,
        |n: u64, tx: SealedTx|
            wrapped(
                wrapped(n as int, tx.effects.nodes@.len() as int) as int,
                tx.effects.edges@.len() as int,
            ),
    )
}

fn count_events(staged: &Vec<SealedTx>) -> (r: u64)
    ensures
        r == event_count(staged@),
{
    let ghost step = |n: u64, tx: SealedTx|
        wrapped(
            wrapped(n as int, tx.effects.nodes@.len() as int) as int,
            tx.effects.edges@.len() as int,
        );
    let mut n: u64 = 0;
    let mut i: usize = 0;
    proof {
        lemma_fold_all(staged@, 0u64, step);
    }
    while i < staged.len()
        invariant
            i <= staged.len(),
            step == (|n: u64, tx: SealedTx|
                wrapped(
                    wrapped(n as int, tx.effects.nodes@.len() as int) as int,
                    tx.effects.edges@.len() as int,
                )),
            n == fold(staged@.subrange(0, i as int), 0u64, step),
        decreases staged.len() - i,
    {
        proof {
            lemma_fold_step(staged@, 0u64, step, i as int);
        }
        n = n.wrapping_add(staged[i].effects.nodes.len() as u64);
        n = n.wrapping_add(staged[i].effects.edges.len() as u64);
        i += 1;
    }
    proof {
        lemma_fold_all(staged@, 0u64, step);
    }
    n
}

fn receipts_of(staged: &Vec<SealedTx>) -> (r: Vec<Result<TxReceipt, EngineError>>)
    ensures
        all_committed(r@, staged@),
{
    let mut acks: Vec<Result<TxReceipt, EngineError>> = Vec::new();
    let mut i: usize = 0;
    while i < staged.len()
        invariant
            i <= staged.len(),
            acks@.len() == i,
            forall|k: int|
                0 <= k < i ==> (#[trigger] acks@[k] matches Ok(r) && r == staged@[k].receipt),
        decreases staged.len() - i,
    {
        acks.push(Ok(staged[i].receipt.clone_receipt()));
        i += 1;
    }
    acks
}

/// The end of a batch that the log put at `first`, where the epoch can hold it.
pub open spec fn batch_end(first: LogPosition, count: int) -> Option<LogPosition> {
    if first.offset() + count < EPOCH_SPAN {
        Some(LogPosition { packed: (first.packed + count) as u64 })
    } else {
        None
    }
}

/// The watermark after a batch became durable.
pub open spec fn watermark_after(old: LogPosition, first: LogPosition, count: int) -> LogPosition {
    match batch_end(first, count) {
        Some(end) => end,
        None => old,
    }
}

impl WriterCore {
    /// Takes the log's answer to a batch: the position of its first record, or
    /// the text of a failure.
    ///
    /// Where the log failed, nothing is applied and the writer goes on. Where
    /// the lease is gone by now, nothing is applied or acknowledged, and the
    /// writer stops. Otherwise the batch is applied, and then acknowledged; a
    /// failure to apply what is durable stops the writer.
    pub fn finish_commit(
        &mut self,
        staged: Vec<SealedTx>,
        appended: Result<LogPosition, String>,
        lease: &LeaseState,
        now: u64,
    ) -> (r: CommitReport)
        requires
            old(self).state.wf(),
            batch_wf(staged@),
        ensures
            final(self).state.wf(),
            final(self).next_tx_id == old(self).next_tx_id,
            final(self).next_block_id == old(self).next_block_id,
            match appended {
                Err(text) => {
                    &&& all_failed(
                        r.acks@,
                        staged@.len() as int,
                        ErrorView::CommitFailed(text@),
                    )
                    &&& r.fatal is None
                    &&& final(self).state == old(self).state
                    &&& final(self).durable_watermark == old(self).durable_watermark
                    &&& final(self).progress == old(self).progress
                    &&& final(self).metrics == (EngineMetrics {
                        commit_failures: wrapped(old(self).metrics.commit_failures as int, 1),
                        ..old(self).metrics
                    })
                },
                Ok(first) => match lease_block_spec(lease@, now) {
                    Some(reason) => {
                        &&& all_failed(
                            r.acks@,
                            staged@.len() as int,
                            ErrorView::WriterFenced(reason),
                        )
                        &&& (r.fatal matches Some(f) && f@ == reason)
                        &&& *final(self) == *old(self)
                    },
                    None => {
                        &&& final(self).durable_watermark == watermark_after(
                            old(self).durable_watermark,
                            first,
                            staged@.len() as int,
                        )
                        &&& match batch_applied(old(self).state@, staged@) {
                            Ok(s) => {
                                &&& all_committed(r.acks@, staged@)
                                &&& r.fatal is None
                                &&& final(self).state@ == s
                                &&& final(self).metrics == (EngineMetrics {
                                    txs_committed: wrapped(
                                        old(self).metrics.txs_committed as int,
                                        staged@.len() as int,
                                    ),
                                    events_committed: wrapped(
                                        old(self).metrics.events_committed as int,
                                        event_count(staged@) as int,
                                    ),
                                    ..old(self).metrics
                                })
                                &&& match batch_end(first, staged@.len() as int) {
                                    Some(end) => if staged@.len() > 0 {
                                        &&& final(self).progress.applied.tx_id
                                            == staged@.last().receipt.tx_id
                                        &&& final(self).progress.applied.log_position == end
                                        &&& final(self).progress.log_head == end
                                        &&& final(self).progress.follower_error is None
                                    } else {
                                        final(self).progress == old(self).progress
                                    },
                                    None => final(self).progress == old(self).progress,
                                }
                            },
                            Err(stop) => {
                                &&& all_failed(
                                    r.acks@,
                                    staged@.len() as int,
                                    ErrorView::CommitFailed(stop.text),
                                )
                                &&& (r.fatal matches Some(f) && f@
                                    == "apply failed after durable append: "@ + stop.text)
                                &&& final(self).state@ == stop.state
                                &&& final(self).progress == old(self).progress
                                &&& final(self).metrics == old(self).metrics
                            },
                        }
                    },
                },
            },
    {
        let n: usize = staged.len();
        let first = match appended {
            Err(text) => {
                self.metrics.commit_failures = self.metrics.commit_failures.wrapping_add(1);
                return CommitReport { acks: commit_failed(n, &text), fatal: None };
            },
            Ok(first) => first,
        };
        match lease_block(lease, now) {
            Some(reason) => {
                return fence_all(n, reason);
            },
            None => {},
        }
        let end = match first.advance(n as u64) {
            Ok(end) => Some(end),
            Err(_) => None,
        };
        match end {
            Some(end) => {
                self.durable_watermark = end;
            },
            None => {},
        }
        let receipts = receipts_of(&staged);
        let events = count_events(&staged);
        let last_tx: u64 = if n > 0 {
            staged[n - 1].receipt.tx_id
        } else {
            0
        };
        match apply(&mut self.state, staged) {
            Ok(()) => {
                match end {
                    Some(end) => {
                        if n > 0 {
                            self.progress = ProgressState::running(last_tx, end, end);
                        }
                    },
                    None => {},
                }
                self.metrics.txs_committed = self.metrics.txs_committed.wrapping_add(n as u64);
                self.metrics.events_committed =
                    self.metrics.events_committed.wrapping_add(events);
                CommitReport { acks: receipts, fatal: None }
            },
            Err(text) => CommitReport {
                acks: commit_failed(n, &text),
                fatal: Some(concat2("apply failed after durable append: ", text.as_str())),
            },
        }
    }

    /// Publishes why the writer stopped.
    pub fn publish_fatal(&mut self, reason: &str)
        ensures
            final(self).progress.applied == old(self).progress.applied,
            final(self).progress.log_head == old(self).progress.log_head,
            final(self).progress.follower_error matches Some(e) && e@ == "writer stopped: "@
                + reason@,
            final(self).state == old(self).state,
            final(self).next_tx_id == old(self).next_tx_id,
            final(self).next_block_id == old(self).next_block_id,
            final(self).durable_watermark == old(self).durable_watermark,
            final(self).metrics == old(self).metrics,
    {
        self.progress.follower_error = Some(concat2("writer stopped: ", reason));
    }
}

/// The events of a transaction all stand at the end of the tail of their table,
/// in order.
pub proof fn law_events_are_applied_in_order(
    s: StateView,
    graph: Seq<char>,
    kind: TableKind,
    events: Seq<Event>,
)
    requires
        events_applied(s, graph, kind, events) is Ok,
    ensures
        ({
            let w = events_applied(s, graph, kind, events)->Ok_0;
            &&& w.graphs.dom() == s.graphs.dom()
            &&& w.catalog == s.catalog
            &&& w.security_epoch == s.security_epoch
            &&& forall|x: Seq<char>| x != graph ==> #[trigger] w.graphs[x] == s.graphs[x]
            &&& w.graphs[graph].nodes.live == if kind is Nodes {
                s.graphs[graph].nodes.live + events
            } else {
                s.graphs[graph].nodes.live
            }
            &&& w.graphs[graph].edges.live == if kind is Edges {
                s.graphs[graph].edges.live + events
            } else {
                s.graphs[graph].edges.live
            }
            &&& w.graphs[graph].nodes.tries == s.graphs[graph].nodes.tries
            &&& w.graphs[graph].edges.tries == s.graphs[graph].edges.tries
        }),
    decreases events.len(),
{
    let step = |s: StateView, e: Event| event_applied(s, graph, kind, e);
    if events.len() == 0 {
        assert(s.graphs[graph].nodes.live + events =~= s.graphs[graph].nodes.live);
        assert(s.graphs[graph].edges.live + events =~= s.graphs[graph].edges.live);
    } else {
        let front = events.drop_last();
        let e = events.last();
        law_events_are_applied_in_order(s, graph, kind, front);
        let v = events_applied(s, graph, kind, front)->Ok_0;
        law_appending_changes_one_tail(v, graph, kind, e);
        let a = s.graphs[graph];
        assert((a.nodes.live + front).push(e) =~= a.nodes.live + events);
        assert((a.edges.live + front).push(e) =~= a.edges.live + events);
    }
}

/// A transaction that is applied has put its nodes and its edges at the ends of
/// their tails; other graphs stay as they were. One on the policy changes the
/// policy's number, any other does not.
pub proof fn law_transactions_are_applied_whole(s: StateView, tx: SealedTx)
    requires
        tx_applied(s, tx) is Ok,
        tx.effects.catalog_ops@.len() == 0,
        s.security_epoch < u64::MAX,
    ensures
        ({
            let w = tx_applied(s, tx)->Ok_0;
            let g = tx.graph@;
            &&& s.graphs.dom().contains(g)
            &&& w.graphs.dom() == s.graphs.dom()
            &&& forall|x: Seq<char>| x != g ==> #[trigger] w.graphs[x] == s.graphs[x]
            &&& w.graphs[g].nodes.live == s.graphs[g].nodes.live + tx.effects.nodes@
            &&& w.graphs[g].edges.live == s.graphs[g].edges.live + tx.effects.edges@
            &&& w.security_epoch == s.security_epoch + (if g == "__security"@ && (
            tx.effects.nodes@.len() > 0 || tx.effects.edges@.len() > 0) {
                1int
            } else {
                0
            })
        }),
{
    assert(views(tx.effects.catalog_ops@) =~= Seq::empty());
    let nodes = tx.effects.nodes@;
    let edges = tx.effects.edges@;
    law_events_are_applied_in_order(s, tx.graph@, TableKind::Nodes, nodes);
    let s2 = events_applied(s, tx.graph@, TableKind::Nodes, nodes)->Ok_0;
    law_events_are_applied_in_order(s2, tx.graph@, TableKind::Edges, edges);
}

/// A created graph is there and empty, a dropped one is not there; other graphs
/// stay.
pub proof fn law_catalog_changes_are_applied(s: StateView, n: Seq<char>)
    ensures
        ({
            let a = op_applied(s, CatalogOpView::CreateGraph(n));
            let b = op_applied(s, CatalogOpView::DropGraph(n));
            &&& a.graphs.dom().contains(n)
            &&& a.graphs[n].nodes.live.len() == 0
            &&& a.graphs[n].edges.live.len() == 0
            &&& a.graphs[n].nodes.tries.len() == 0
            &&& a.graphs[n].edges.tries.len() == 0
            &&& !b.graphs.dom().contains(n)
            &&& forall|x: Seq<char>|
                x != n ==> (#[trigger] a.graphs.dom().contains(x) <==> s.graphs.dom().contains(x))
                    && a.graphs[x] == s.graphs[x]
            &&& forall|x: Seq<char>|
                x != n ==> (#[trigger] b.graphs.dom().contains(x) <==> s.graphs.dom().contains(x))
                    && (s.graphs.dom().contains(x) ==> b.graphs[x] == s.graphs[x])
        }),
{
}

/// The log moves on by one place for each record of a batch, within its epoch;
/// where the epoch has no room, what is durable does not move.
pub proof fn law_watermarks_follow_the_batch(was: LogPosition, first: LogPosition, count: int)
    requires
        0 <= count,
    ensures
        first.offset() + count < EPOCH_SPAN ==> watermark_after(was, first, count).packed
            == first.packed + count && watermark_after(was, first, count).epoch()
            == first.epoch(),
        first.offset() + count >= EPOCH_SPAN ==> watermark_after(was, first, count) == was,
{
    if first.offset() + count < EPOCH_SPAN {
        let n = first.packed + count;
        assert(first.packed / EPOCH_SPAN == n / EPOCH_SPAN as int && n <= u64::MAX)
            by (nonlinear_arith)
            requires
                first.packed % EPOCH_SPAN + count < EPOCH_SPAN,
                0 <= count,
                n == first.packed + count,
                EPOCH_SPAN == 281_474_976_710_656,
                first.packed <= u64::MAX,
        ;
    }
}

} // verus!
