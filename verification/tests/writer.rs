//! The writer: its queue, its batches, its commits and its blocks.

use varve_engine::ast::{GraphStmt, InsertStmt, SecurityStmt, Statement};
use varve_engine::batch::{
    admit_compaction, compact_ack, next_deadline, payload_reads, queue_error, AfterCommit, Batch,
    BatchAction, BatchEvent, CompactAck, FlushOutcome, LoopAction, LoopEvent, Payload, Phase,
    QueueFault, WriterConfig, WriterLoop,
};
use varve_engine::commit::{begin_commit, WriterCore};
use varve_engine::coord::LeaseState;
use varve_engine::doc::Doc;
use varve_engine::effects::{CatalogOp, Effects};
use varve_engine::error::EngineError;
use varve_engine::event::{Event, Op};
use varve_engine::flush::{
    encode_all, BlockPart, EncodedBlock, FlushAction, FlushRun, GraphEncoded, Put, Slot,
};
use varve_engine::metrics::{count_rejection, snapshot, EngineMetrics};
use varve_engine::node::ProgressState;
use varve_engine::program::{
    admit_program, program_reads, program_shape, seal_effects, Shape, SealedTx, Transaction,
};
use varve_engine::replay::{
    apply_decoded_log_record, decode_log_record, RawLogRecord, RawTableEffects,
};
use varve_engine::state::{GraphsState, PageMeta, TableKind};
use varve_engine::tuning::{writer_config, LogTuning, StorageTuning};
use varve_engine::types::{Iid, Instant, LogPosition};

fn text(t: &str) -> String {
    t.to_string()
}

fn put(id: u128, at: i64) -> Event {
    Event {
        iid: Iid { bits: id },
        system_from: Instant::from_micros(at),
        valid_from: Instant::from_micros(at),
        valid_to: Instant::end_of_time(),
        src: None,
        dst: None,
        op: Op::Put { labels: vec![text("P")], doc: Doc::new() },
    }
}

fn tx(tx_id: u64, at: i64) -> SealedTx {
    let mut effects = Effects::new();
    effects.push_node(put(tx_id as u128, at));
    seal_effects(tx_id, Instant::from_micros(at), &text("ada"), text("default"), effects)
}

fn catalog_tx(tx_id: u64) -> SealedTx {
    let mut effects = Effects::new();
    effects.push_catalog(CatalogOp::CreateGraph(text("g")));
    seal_effects(tx_id, Instant::from_micros(1), &text("ada"), text("__meta"), effects)
}

fn fresh_core() -> WriterCore {
    WriterCore {
        state: GraphsState::new(),
        next_tx_id: 2,
        next_block_id: 0,
        durable_watermark: LogPosition::zero(),
        progress: ProgressState::running(0, LogPosition::zero(), LogPosition::zero()),
        metrics: EngineMetrics::new(),
    }
}

fn config() -> WriterConfig {
    WriterConfig {
        window_ms: 15,
        max_bytes: 100,
        max_block_rows: 10,
        max_live_bytes: 1000,
        flush_interval_ms: 50,
        queue_len: 4,
    }
}

fn insert() -> Statement {
    Statement::Insert(InsertStmt {
        match_part: None,
        paths: Vec::new(),
        valid_from: None,
        valid_to: None,
    })
}

fn matched_insert() -> Statement {
    Statement::Insert(InsertStmt {
        match_part: Some(Vec::new()),
        paths: Vec::new(),
        valid_from: None,
        valid_to: None,
    })
}

#[test]
fn a_full_queue_pushes_back() {
    assert!(matches!(queue_error(QueueFault::Full), EngineError::Backpressure));
    assert!(matches!(queue_error(QueueFault::Closed), EngineError::WriterUnavailable));
    let mut metrics = EngineMetrics::new();
    count_rejection(&mut metrics, &EngineError::Backpressure);
    count_rejection(&mut metrics, &EngineError::WriterUnavailable);
    assert_eq!(metrics.backpressure_rejections, 1);
}

#[test]
fn programs_have_one_shape() {
    let catalog = || Statement::Graph(GraphStmt::Create(text("g")));
    let policy = || Statement::Security(SecurityStmt::CreateRole(text("r")));
    assert!(matches!(program_shape(&vec![insert()]), Ok(Shape::Data)));
    assert!(matches!(program_shape(&vec![catalog()]), Ok(Shape::Catalog)));
    assert!(matches!(program_shape(&vec![policy()]), Ok(Shape::Policy)));
    assert!(matches!(program_shape(&Vec::new()), Err(EngineError::NotAMutation)));
    assert!(matches!(
        program_shape(&vec![Statement::Security(SecurityStmt::ShowRoles)]),
        Err(EngineError::NotAMutation)
    ));
    for mixed in [vec![insert(), catalog()], vec![policy(), catalog()], vec![policy(), insert()]] {
        assert!(matches!(
            program_shape(&mixed),
            Err(EngineError::Unsupported(t))
                if t == "mixing catalog/security and data statements in one transaction"
        ));
    }
}

#[test]
fn catalog_and_policy_need_an_administrator() {
    let state = GraphsState::new();
    let taken = |shape, graph: &str, admin| {
        admit_program(shape, &state, &text(graph), &text("bob"), admin)
    };
    assert!(taken(Shape::Data, "default", false).is_ok());
    assert!(matches!(
        taken(Shape::Data, "nope", true),
        Err(EngineError::UnknownGraph(g)) if g == "nope"
    ));
    assert!(taken(Shape::Catalog, "default", true).is_ok());
    assert!(matches!(
        taken(Shape::Policy, "default", false),
        Err(EngineError::AccessDenied(t)) if t
            == "user 'bob' is not an administrator (catalog and security DDL require ADMIN)"
    ));
}

#[test]
fn transactions_are_numbered_from_the_last() {
    let mut next = 4;
    let begun = Transaction::begin(
        &mut next,
        Shape::Catalog,
        &text("default"),
        Instant::from_micros(9),
    );
    assert_eq!((next, begun.tx_id), (5, 5));
    assert_eq!(begun.graph, "__meta");
    let sealed = begun.seal(&text("ada"));
    assert!(sealed.tables.is_empty());
    assert_eq!(sealed.receipt.user, "ada");
    assert_eq!(sealed.receipt.system_time, Instant::from_micros(9));
}

#[test]
fn the_default_graph_is_not_named_in_records() {
    let sealed = tx(1, 1);
    assert_eq!(sealed.tables.len(), 1);
    assert_eq!(sealed.tables[0].table, TableKind::Nodes);
    assert_eq!(sealed.tables[0].graph, "");
}

#[test]
fn matches_read_and_loads_do_not() {
    assert!(!program_reads(&vec![insert()]));
    assert!(program_reads(&vec![insert(), matched_insert()]));
    assert!(payload_reads(&Payload::Program(vec![matched_insert()])));
    assert!(!payload_reads(&Payload::Ingest));
}

#[test]
fn submissions_share_one_append() {
    let cfg = config();
    let mut batch = Batch::open();
    for n in 1..3 {
        assert!(matches!(batch.step(cfg, BatchEvent::Submit { reads: false }), BatchAction::Resolve));
        assert!(matches!(
            batch.step(cfg, BatchEvent::Resolved { tx: tx(n, n as i64), wire_len: 10 }),
            BatchAction::Receive
        ));
    }
    assert_eq!(batch.staged_bytes, 20);
    match batch.step(cfg, BatchEvent::Quiet) {
        BatchAction::Commit(txs) => {
            let ids: Vec<u64> = txs.iter().map(|t| t.receipt.tx_id).collect();
            assert_eq!(ids, vec![1, 2]);
        }
        _ => panic!("the staged transactions are committed"),
    }
    assert!(matches!(batch.step(cfg, BatchEvent::Committed { fatal: None }), BatchAction::End));
}

#[test]
fn a_large_batch_does_not_wait() {
    let cfg = config();
    let mut batch = Batch::open();
    batch.step(cfg, BatchEvent::Submit { reads: false });
    assert!(matches!(
        batch.step(cfg, BatchEvent::Resolved { tx: tx(1, 1), wire_len: 100 }),
        BatchAction::Commit(txs) if txs.len() == 1
    ));
}

#[test]
fn readers_wait_for_what_is_staged() {
    let cfg = config();
    let mut batch = Batch::open();
    batch.step(cfg, BatchEvent::Submit { reads: false });
    batch.step(cfg, BatchEvent::Resolved { tx: tx(1, 1), wire_len: 1 });
    assert!(matches!(
        batch.step(cfg, BatchEvent::Submit { reads: true }),
        BatchAction::Commit(txs) if txs.len() == 1
    ));
    assert_eq!(batch.phase, Phase::Committing(AfterCommit::Resolve));
    assert!(matches!(batch.step(cfg, BatchEvent::Committed { fatal: None }), BatchAction::Resolve));
}

#[test]
fn a_catalog_change_is_committed_before_the_next_submission() {
    let cfg = config();
    let mut batch = Batch::open();
    batch.step(cfg, BatchEvent::Submit { reads: false });
    batch.step(cfg, BatchEvent::Resolved { tx: catalog_tx(1), wire_len: 1 });
    assert!(matches!(
        batch.step(cfg, BatchEvent::Submit { reads: false }),
        BatchAction::Commit(_)
    ));
}

#[test]
fn a_stopped_batch_refuses_the_command_that_waits() {
    let cfg = config();
    let mut batch = Batch::open();
    batch.step(cfg, BatchEvent::Submit { reads: false });
    batch.step(cfg, BatchEvent::Resolved { tx: tx(1, 1), wire_len: 1 });
    batch.step(cfg, BatchEvent::Submit { reads: true });
    assert!(matches!(
        batch.step(cfg, BatchEvent::Committed { fatal: Some(text("lost")) }),
        BatchAction::Stop { reason, refuse_waiting: true } if reason == "lost"
    ));
    let mut quiet = Batch::open();
    assert!(matches!(quiet.step(cfg, BatchEvent::Quiet), BatchAction::End));
    let mut refused = Batch::open();
    refused.step(cfg, BatchEvent::Submit { reads: false });
    assert!(matches!(refused.step(cfg, BatchEvent::Refused), BatchAction::Receive));
    assert!(matches!(refused.step(cfg, BatchEvent::Compact), BatchAction::HandOver));
}

#[test]
fn a_batch_is_acknowledged_once_it_is_durable_and_applied() {
    let mut core = fresh_core();
    let first = LogPosition::zero();
    assert!(begin_commit(&vec![tx(1, 1)], &LeaseState::Unfenced, 0).is_none());
    let report = core.finish_commit(vec![tx(1, 1), tx(2, 2)], Ok(first), &LeaseState::Unfenced, 0);
    assert_eq!(report.acks.len(), 2);
    assert!(matches!(&report.acks[1], Ok(receipt) if receipt.tx_id == 2));
    assert!(report.fatal.is_none());
    assert_eq!(core.durable_watermark, LogPosition::new(0, 2).unwrap());
    assert_eq!(core.progress.applied.tx_id, 2);
    assert_eq!(core.progress.log_head, LogPosition::new(0, 2).unwrap());
    assert_eq!(core.metrics.txs_committed, 2);
    assert_eq!(core.metrics.events_committed, 2);
    assert_eq!(core.state.live_rows(), 2);
}

#[test]
fn a_failed_append_applies_nothing() {
    let mut core = fresh_core();
    let report =
        core.finish_commit(vec![tx(1, 1)], Err(text("disk")), &LeaseState::Unfenced, 0);
    assert!(matches!(&report.acks[0], Err(EngineError::CommitFailed(t)) if t == "disk"));
    assert!(report.fatal.is_none());
    assert_eq!(core.metrics.commit_failures, 1);
    assert_eq!(core.state.live_rows(), 0);
    assert_eq!(core.durable_watermark, LogPosition::zero());
}

#[test]
fn a_lost_or_expired_lease_fences_the_batch() {
    let lost = LeaseState::Lost(text("lease seized by another writer"));
    let report = begin_commit(&vec![tx(1, 1)], &lost, 0).unwrap();
    assert!(matches!(
        &report.acks[0],
        Err(EngineError::WriterFenced(t)) if t == "lease seized by another writer"
    ));
    assert_eq!(report.fatal, Some(text("lease seized by another writer")));
    let mut core = fresh_core();
    let until = LeaseState::ValidUntil(10);
    assert!(begin_commit(&vec![tx(1, 1)], &until, 9).is_none());
    let report = core.finish_commit(vec![tx(1, 1)], Ok(LogPosition::zero()), &until, 10);
    assert!(matches!(
        &report.acks[0],
        Err(EngineError::WriterFenced(t)) if t == "lease expired before ack"
    ));
    assert_eq!(core.state.live_rows(), 0);
}

#[test]
fn a_batch_that_cannot_be_applied_stops_the_writer() {
    let mut core = fresh_core();
    let mut effects = Effects::new();
    effects.push_node(put(1, 1));
    let stray =
        seal_effects(1, Instant::from_micros(1), &text("ada"), text("nope"), effects);
    let report =
        core.finish_commit(vec![stray], Ok(LogPosition::zero()), &LeaseState::Unfenced, 0);
    assert_eq!(
        report.fatal,
        Some(text("apply failed after durable append: unknown graph 'nope'"))
    );
    core.publish_fatal("apply failed");
    assert_eq!(core.progress.follower_error, Some(text("writer stopped: apply failed")));
}

#[test]
fn the_flush_timer_runs_from_the_first_row() {
    let cfg = config();
    assert_eq!(next_deadline(cfg, 0, Some(3), 10), None);
    assert_eq!(next_deadline(cfg, 1, None, 10), Some(60));
    assert_eq!(next_deadline(cfg, 1, Some(55), 20), Some(55));
    let never = WriterConfig { flush_interval_ms: 0, ..cfg };
    assert_eq!(next_deadline(never, 1, None, 10), None);
}

#[test]
fn the_loop_writes_a_block_when_there_is_enough_or_it_is_due() {
    let cfg = config();
    let mut counts = EngineMetrics::new();
    let mut run = WriterLoop::start();
    assert!(matches!(run.step(&mut counts, cfg, LoopEvent::Submit), LoopAction::RunBatch));
    assert!(matches!(
        run.step(&mut counts, cfg, LoopEvent::BatchOver { rows: 10, bytes: 0, now_ms: 1 }),
        LoopAction::WriteBlock
    ));
    let written = LoopEvent::Flushed { outcome: FlushOutcome::Written, rows: 0, now_ms: 2 };
    assert!(matches!(run.step(&mut counts, cfg, written), LoopAction::Wait(None)));
    run.step(&mut counts, cfg, LoopEvent::Submit);
    assert!(matches!(
        run.step(&mut counts, cfg, LoopEvent::BatchOver { rows: 1, bytes: 1000, now_ms: 1 }),
        LoopAction::WriteBlock
    ));
    let failed = LoopEvent::Flushed { outcome: FlushOutcome::Failed, rows: 1, now_ms: 5 };
    assert!(matches!(run.step(&mut counts, cfg, failed), LoopAction::Wait(Some(55))));
    assert!(matches!(run.step(&mut counts, cfg, LoopEvent::Due), LoopAction::WriteBlock));
    assert_eq!((counts.flush_blocks, counts.flush_failures), (1, 1));
}

#[test]
fn compactions_are_fenced_like_commits() {
    let lost = LeaseState::Lost(text("gone"));
    assert!(matches!(
        admit_compaction::<u8>(&lost, 0),
        Some(CompactAck::Fenced(t)) if t == "gone"
    ));
    assert!(admit_compaction::<u8>(&LeaseState::Unfenced, 0).is_none());
    assert!(matches!(compact_ack(Ok(3), &LeaseState::Unfenced, 0), CompactAck::Done(3)));
    assert!(matches!(compact_ack(Ok(3), &lost, 0), CompactAck::Fenced(_)));
}

fn page(rows: u64) -> PageMeta {
    PageMeta {
        path: Vec::new(),
        offset: 0,
        len: 2,
        rows,
        min_iid: Iid { bits: 0 },
        max_iid: Iid { bits: 9 },
        min_system_from: Instant::from_micros(1),
        max_system_from: Instant::from_micros(1),
        min_valid_from: Instant::from_micros(1),
        max_valid_from: Instant::from_micros(1),
        min_valid_to: Instant::end_of_time(),
        max_valid_to: Instant::end_of_time(),
        has_erase: false,
    }
}

fn no_block(graph: &str) -> GraphEncoded {
    GraphEncoded { graph: text(graph), nodes: None, edges: None, adj_out: None, adj_in: None }
}

/// A core with one node in the default graph, sealed, and the run of its flush.
fn flushing() -> (WriterCore, FlushRun, FlushAction) {
    let mut core = fresh_core();
    core.finish_commit(
        vec![tx(1, 7)],
        Ok(LogPosition::zero()),
        &LeaseState::Unfenced,
        0,
    );
    let job = core.seal().unwrap();
    assert_eq!(job.block_id, 0);
    assert_eq!(job.max_system_us, 7);
    assert_eq!(job.watermark, LogPosition::new(0, 1).unwrap());
    let tasks = encode_all(&job);
    assert_eq!(tasks.len(), 1);
    let encoded: Vec<GraphEncoded> = job
        .graphs
        .iter()
        .enumerate()
        .map(|(i, seal)| {
            let mut enc = no_block(&seal.graph);
            if i == tasks[0].graph {
                enc.nodes = Some(EncodedBlock {
                    data: vec![1, 2],
                    meta: vec![3],
                    pages: vec![page(1)],
                    labels: vec![4],
                    keys: vec![5],
                    props: vec![6],
                });
            }
            enc
        })
        .collect();
    let (run, action) = FlushRun::start(job, text("l00-rc-b00"), encoded);
    (core, run, action)
}

#[test]
fn a_flush_stores_the_objects_then_the_manifest_then_trims() {
    let (mut core, mut run, mut action) = flushing();
    let mut parts = Vec::new();
    while let FlushAction::Put(Put { slot, part, .. }) = action {
        assert_eq!(slot, Slot::Nodes);
        parts.push(part);
        action = run.step(&mut core.state, Ok(()));
    }
    assert_eq!(
        parts,
        vec![
            BlockPart::Data,
            BlockPart::Meta,
            BlockPart::Labels,
            BlockPart::Keys,
            BlockPart::Props
        ]
    );
    match &action {
        FlushAction::PutManifest(m) => {
            assert_eq!((m.block_id, m.max_tx_id, m.max_system_time_us), (0, 2, 7));
            let nodes = m.tables.iter().find(|t| t.table == "nodes" && t.graph == "default");
            assert_eq!(nodes.unwrap().tries[0].trie_key, "l00-rc-b00");
            assert_eq!(nodes.unwrap().tries[0].row_count, 1);
            assert_eq!(nodes.unwrap().tries[0].data_len, 2);
        }
        _ => panic!("the manifest comes after the objects"),
    }
    assert_eq!(core.state.live_rows(), 1);
    let trim = run.step(&mut core.state, Ok(()));
    assert!(matches!(trim, FlushAction::Trim(p) if p == LogPosition::new(0, 1).unwrap()));
    assert_eq!(core.state.live_rows(), 0);
    assert_eq!(core.state.graph("default").unwrap().nodes.tries.len(), 1);
    let over = run.step(&mut core.state, Err(EngineError::Log(text("trim"))));
    assert!(matches!(over, FlushAction::Done));
    assert!(core.seal().is_none());
    let counts = snapshot(core.metrics, &core.state, 0, Vec::new());
    assert_eq!((counts.live_rows, counts.persisted_tries, counts.txs_committed), (0, 1, 1));
}

#[test]
fn a_failed_flush_keeps_the_rows_and_is_tried_again() {
    let (mut core, mut run, _) = flushing();
    let failed = run.step(&mut core.state, Err(EngineError::Storage(text("full"))));
    assert!(matches!(failed, FlushAction::Failed(EngineError::Storage(t)) if t == "full"));
    assert_eq!(core.state.live_rows(), 1);
    let again = core.seal().unwrap();
    assert_eq!(again.block_id, 1);
    let held: usize =
        again.graphs.iter().map(|g| g.nodes.as_ref().map_or(0, |events| events.len())).sum();
    assert_eq!(held, 1);
}

#[test]
fn records_are_read_back_as_they_were_written() {
    let sealed = tx(3, 8);
    let record = RawLogRecord {
        tx_id: sealed.receipt.tx_id,
        system_time_us: sealed.receipt.system_time.as_micros(),
        effects: vec![RawTableEffects {
            graph: sealed.tables[0].graph.clone(),
            table: sealed.tables[0].table.name().to_string(),
            events: Ok(sealed.effects.nodes),
        }],
    };
    let decoded = decode_log_record(record).unwrap();
    assert_eq!(decoded.tx_id, 3);
    assert_eq!(decoded.system_time, Instant::from_micros(8));
    assert_eq!(decoded.effects[0].graph, "default");
    let mut state = GraphsState::new();
    apply_decoded_log_record(&mut state, decoded).unwrap();
    assert_eq!(state.live_rows(), 1);
}

#[test]
fn writer_defaults() {
    let cfg = writer_config(LogTuning::default(), StorageTuning::default(), 256);
    assert_eq!(cfg.window_ms, 15);
    assert_eq!(cfg.max_block_rows, 100_000);
    assert_eq!(cfg.queue_len, 256);
}
