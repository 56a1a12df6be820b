//! Following the log, starting from it, and checking it.

use std::time::Duration;
use varve_engine::coord::fence::{FenceDoc, FenceMap};
use varve_engine::doc::Doc;
use varve_engine::error::EngineError;
use varve_engine::event::{Event, Op};
use varve_engine::flush::BlockManifest;
use varve_engine::follower::{
    applied_by_poll, poll_delay_after, EmptyRead, FollowerState, RangeOutcome,
};
use varve_engine::node::ProgressState;
use varve_engine::recover::{check_inventory, Recovery, RestoredTable};
use varve_engine::replay::{RawLogRecord, RawTableEffects};
use varve_engine::state::{GraphsState, PageMeta, TrieEntry};
use varve_engine::trie::TableScope;
use varve_engine::types::{Iid, Instant, LogPosition};
use varve_engine::verify::{BlockCheck, LogWalk, VerifyReport, Walk};

fn position(epoch: u16, offset: u64) -> LogPosition {
    LogPosition::new(epoch, offset).unwrap()
}

fn put(id: u8, at: i64) -> Event {
    Event {
        iid: Iid { bits: id as u128 },
        system_from: Instant::from_micros(at),
        valid_from: Instant::from_micros(at),
        valid_to: Instant::end_of_time(),
        src: None,
        dst: None,
        op: Op::Put { labels: vec!["P".to_string()], doc: Doc::new() },
    }
}

fn record(tx_id: u64) -> RawLogRecord {
    RawLogRecord {
        tx_id,
        system_time_us: tx_id as i64,
        effects: vec![RawTableEffects {
            graph: String::new(),
            table: "nodes".to_string(),
            events: Ok(vec![put(tx_id as u8, tx_id as i64)]),
        }],
    }
}

fn bad_record(tx_id: u64) -> RawLogRecord {
    RawLogRecord {
        tx_id,
        system_time_us: tx_id as i64,
        effects: vec![RawTableEffects {
            graph: String::new(),
            table: "widgets".to_string(),
            events: Ok(Vec::new()),
        }],
    }
}

fn follower(cursor: LogPosition, fences: FenceMap) -> FollowerState {
    FollowerState {
        state: GraphsState::new(),
        cursor,
        batch_records: 1024,
        progress: ProgressState::running(0, cursor, cursor),
        fences,
    }
}

#[test]
fn nonempty_batches_repoll_immediately_and_empty_batches_use_interval() {
    let interval = Duration::from_millis(37);
    assert_eq!(poll_delay_after(1, interval), None);
    assert_eq!(poll_delay_after(0, interval), Some(interval));
}

#[test]
fn liveness_and_jump_follow_the_fence() {
    let fences = FenceMap::from_pairs(&[(0, 5)]);
    let live = position(0, 4);
    let dead = position(0, 5);
    let later = position(1, 0);
    assert!(fences.is_live(live));
    assert!(!fences.is_live(dead));
    assert!(fences.is_live(later));
    assert_eq!(fences.jump(live).unwrap(), None);
    assert_eq!(fences.jump(dead).unwrap(), Some(later));
}

#[test]
fn fences_are_read_from_their_documents() {
    let docs = vec![FenceDoc {
        epoch: 0,
        fence_offset: 7,
        fenced_by: "n1".to_string(),
        fenced_at_us: 1,
    }];
    let fences = FenceMap::load_fences(&docs);
    assert!(!fences.is_live(position(0, 7)));
    assert!(fences.is_live(position(0, 6)));
}

#[test]
fn no_epoch_follows_the_last() {
    let fences = FenceMap::from_pairs(&[(u16::MAX, 0)]);
    assert!(matches!(
        fences.jump(position(u16::MAX, 1)),
        Err(EngineError::EpochExhausted)
    ));
}

#[test]
fn a_follower_applies_what_it_reads() {
    let mut f = follower(position(0, 0), FenceMap::new());
    let (from, to) = f.range_to_read().unwrap();
    assert_eq!((from, to), (position(0, 0), position(0, 1024)));
    let outcome = f
        .apply_records(vec![(position(0, 0), record(1)), (position(0, 1), record(2))])
        .unwrap();
    assert_eq!(outcome, RangeOutcome::Applied(2));
    assert_eq!(f.cursor, position(0, 2));
    assert_eq!(f.progress.applied.tx_id, 2);
    assert_eq!(f.progress.applied.log_position, position(0, 2));
    assert_eq!(f.state.live_rows(), 2);
    assert_eq!(applied_by_poll(outcome, None), 2);
    assert_eq!(
        applied_by_poll(RangeOutcome::Jumped, Some(RangeOutcome::Applied(3))),
        3
    );
}

#[test]
fn a_failed_record_leaves_the_follower_before_it() {
    let mut f = follower(position(0, 0), FenceMap::new());
    let err = f
        .apply_records(vec![(position(0, 0), record(1)), (position(0, 1), bad_record(2))])
        .unwrap_err();
    assert!(matches!(err, EngineError::UnknownTable(t) if t == "widgets"));
    assert_eq!(f.cursor, position(0, 1));
    assert_eq!(f.progress.applied.tx_id, 1);
    f.fail("first".to_string());
    f.fail("second".to_string());
    assert_eq!(f.progress.follower_error, Some("first".to_string()));
}

#[test]
fn records_must_begin_at_the_cursor() {
    let mut f = follower(position(0, 0), FenceMap::new());
    assert!(matches!(
        f.apply_records(vec![(position(0, 1), record(1))]),
        Err(EngineError::LogGap { expected, actual })
            if expected == position(0, 0) && actual == position(0, 1)
    ));
}

#[test]
fn an_empty_read_behind_the_manifest_is_a_gap() {
    let mut f = follower(position(0, 0), FenceMap::new());
    assert_eq!(f.on_empty(FenceMap::new()).unwrap(), EmptyRead::AskManifest);
    assert!(matches!(
        f.on_manifest(Some(position(0, 5))),
        Err(EngineError::LogGap { .. })
    ));
    assert_eq!(f.on_manifest(Some(position(0, 0))).unwrap(), RangeOutcome::Applied(0));
    assert_eq!(f.on_manifest(None).unwrap(), RangeOutcome::Applied(0));
}

#[test]
fn an_empty_read_at_a_fence_goes_on_in_the_next_epoch() {
    let mut f = follower(position(0, 5), FenceMap::new());
    assert_eq!(
        f.on_empty(FenceMap::from_pairs(&[(0, 5)])).unwrap(),
        EmptyRead::Jumped
    );
    assert_eq!(f.cursor, position(1, 0));
}

#[test]
fn dead_records_are_passed_over() {
    let mut f = follower(position(0, 0), FenceMap::from_pairs(&[(0, 1)]));
    let outcome = f
        .apply_records(vec![(position(0, 0), record(1)), (position(0, 1), record(2))])
        .unwrap();
    assert_eq!(outcome, RangeOutcome::Applied(1));
    assert_eq!(f.cursor, position(0, 2));
    assert_eq!(f.progress.applied.tx_id, 1);
    assert_eq!(f.state.live_rows(), 1);
}

fn manifest() -> BlockManifest {
    BlockManifest {
        block_id: 4,
        watermark: position(0, 3).as_u64(),
        max_tx_id: 9,
        max_system_time_us: 50,
        tables: Vec::new(),
    }
}

#[test]
fn recovery_goes_on_behind_the_manifest() {
    let mut r = Recovery::start(Some(&manifest()));
    assert_eq!(r.next_block_id, 5);
    r.replay(&FenceMap::new(), vec![(position(0, 3), record(60))]).unwrap();
    assert_eq!(r.next_tx_id, 60);
    assert_eq!(r.watermark, position(0, 4));
    assert_eq!(r.max_system, Some(Instant::from_micros(60)));
    let mut low = Recovery::start(Some(&manifest()));
    low.replay(&FenceMap::new(), vec![(position(0, 3), record(1))]).unwrap();
    assert_eq!(low.next_tx_id, 9);
    assert_eq!(low.max_system, Some(Instant::from_micros(50)));
}

#[test]
fn recovery_refuses_a_gap_that_no_fence_explains() {
    let mut r = Recovery::start(None);
    assert!(matches!(
        r.replay(&FenceMap::new(), vec![(position(0, 1), record(1))]),
        Err(EngineError::LogGap { expected, actual })
            if expected == position(0, 0) && actual == position(0, 1)
    ));
}

#[test]
fn recovery_jumps_over_dead_records() {
    let fences = FenceMap::from_pairs(&[(0, 1)]);
    let mut r = Recovery::start(None);
    r.replay(
        &fences,
        vec![
            (position(0, 0), record(1)),
            (position(0, 1), record(2)),
            (position(1, 0), record(3)),
        ],
    )
    .unwrap();
    assert_eq!(r.next_tx_id, 3);
    assert_eq!(r.watermark, position(1, 1));
    assert_eq!(r.state.live_rows(), 2);
}

#[test]
fn recovery_lists_the_blocks_and_refuses_unknown_inventories() {
    let mut r = Recovery::start(Some(&manifest()));
    r.restore(vec![RestoredTable {
        scope: TableScope::new("tenant", "edges", ""),
        tries: Vec::new(),
    }])
    .unwrap();
    assert!(r.state.has_graph("tenant"));
    assert!(check_inventory(&TableScope::new("tenant", "nodes", "")).is_ok());
    let odd = || TableScope::new("g", "widgets", "f");
    assert!(matches!(
        check_inventory(&odd()),
        Err(EngineError::UnknownTable(t)) if t == "g/widgets/f"
    ));
    assert!(matches!(
        r.restore(vec![RestoredTable { scope: odd(), tries: Vec::new() }]),
        Err(EngineError::UnknownTable(t)) if t == "g/widgets/f"
    ));
    assert_eq!(r.catalog_blocks(), 0);
}

fn page(offset: u64, len: u64, rows: u64) -> PageMeta {
    PageMeta {
        path: Vec::new(),
        offset,
        len,
        rows,
        min_iid: Iid { bits: 0 },
        max_iid: Iid { bits: 9 },
        min_system_from: Instant::from_micros(1),
        max_system_from: Instant::from_micros(1),
        min_valid_from: Instant::from_micros(1),
        max_valid_from: Instant::from_micros(1),
        min_valid_to: Instant::end_of_time(),
        max_valid_to: Instant::end_of_time(),
        has_erase: false,
    }
}

fn trie(rows: u64, data_len: u64) -> TrieEntry {
    TrieEntry { trie_key: "l00-rc-b00".to_string(), row_count: rows, data_len }
}

fn fault(e: EngineError) -> String {
    match e {
        EngineError::Index(varve_engine::error::IndexError::Other(text)) => text,
        other => panic!("{other:?}"),
    }
}

#[test]
fn a_sound_block_passes() {
    let entry = trie(5, 10);
    let mut check = BlockCheck::begin("d".to_string(), "m".to_string(), &entry, 10).unwrap();
    assert_eq!(check.begin_page(&page(0, 4, 2)).unwrap(), (0, 4));
    check.end_page(&page(0, 4, 2), 2).unwrap();
    assert_eq!(check.begin_page(&page(4, 6, 3)).unwrap(), (4, 10));
    check.end_page(&page(4, 6, 3), 3).unwrap();
    check.finish(&entry).unwrap();
}

#[test]
fn each_fault_of_a_block_is_named() {
    let entry = trie(5, 10);
    let begin = || BlockCheck::begin("d".to_string(), "m".to_string(), &trie(5, 10), 10).unwrap();
    assert_eq!(
        fault(BlockCheck::begin("d".to_string(), "m".to_string(), &entry, 9).err().unwrap()),
        "d: manifest data_len 10 does not match object length 9"
    );
    let mut check = begin();
    check.end_page(&page(0, 4, 2), 2).unwrap();
    assert_eq!(
        fault(check.begin_page(&page(3, 2, 1)).unwrap_err()),
        "m: page offset 3 overlaps or precedes prior end 4"
    );
    assert_eq!(
        fault(check.begin_page(&page(u64::MAX, 1, 1)).unwrap_err()),
        "m: page byte range overflows"
    );
    assert_eq!(
        fault(check.begin_page(&page(4, 7, 1)).unwrap_err()),
        "d: page range 4..11 exceeds object length 10"
    );
    assert_eq!(
        fault(check.end_page(&page(4, 2, 3), 2).unwrap_err()),
        "d: decoded 2 rows for page declaring 3"
    );
    assert_eq!(
        fault(check.end_page(&page(4, 2, u64::MAX), u64::MAX).unwrap_err()),
        "m: trie row count overflows"
    );
    assert_eq!(
        fault(check.finish(&entry).unwrap_err()),
        "m: decoded trie row count 2 does not match manifest 5"
    );
}

#[test]
fn checked_parts_are_counted() {
    let mut report = VerifyReport::default();
    report.count_page(3);
    report.count_page(4);
    report.count_trie();
    assert_eq!(report.pages_checked, 2);
    assert_eq!(report.events_checked, 7);
    assert_eq!(report.tries_checked, 1);
}

#[test]
fn the_log_is_walked_from_the_manifest_on() {
    let mut walk = LogWalk::start(Some(position(0, 3).as_u64()));
    assert_eq!(walk.range().unwrap(), (position(0, 3), position(0, 1027)));
    let fences = FenceMap::from_pairs(&[(0, 4)]);
    let read = vec![(position(0, 3), record(1)), (position(0, 4), bad_record(2))];
    assert_eq!(walk.on_records(&fences, read).unwrap(), Walk::ReadOn);
    assert_eq!(walk.checked, 1);
    assert_eq!(walk.cursor, position(0, 5));
    assert_eq!(walk.on_records(&fences, Vec::new()).unwrap(), Walk::ReadOn);
    assert_eq!(walk.cursor, position(1, 0));
    assert_eq!(walk.on_records(&fences, Vec::new()).unwrap(), Walk::Finished);
    assert!(matches!(
        walk.on_records(&fences, vec![(position(1, 2), record(3))]),
        Err(EngineError::LogGap { .. })
    ));
}

fn graph_node(name: &str, at: i64) -> Event {
    let mut doc = Doc::new();
    doc.insert("_id".to_string(), varve_engine::types::Value::Str(name.to_string()));
    Event { op: Op::Put { labels: vec!["Graph".to_string()], doc }, ..put(77, at) }
}

fn catalog_record(tx_id: u64, event: Event) -> RawLogRecord {
    RawLogRecord {
        tx_id,
        system_time_us: tx_id as i64,
        effects: vec![RawTableEffects {
            graph: "__meta".to_string(),
            table: "nodes".to_string(),
            events: Ok(vec![event]),
        }],
    }
}

#[test]
fn graphs_come_back_and_stay_away() {
    let mut r = Recovery::start(None);
    r.replay(
        &FenceMap::new(),
        vec![(position(0, 0), catalog_record(1, graph_node("g", 1)))],
    )
    .unwrap();
    assert!(r.state.has_graph("g"));
    let gone = Event { op: Op::Delete, ..put(77, 2) };
    let mut again = Recovery::start(None);
    again
        .replay(
            &FenceMap::new(),
            vec![
                (position(0, 0), catalog_record(1, graph_node("g", 1))),
                (position(0, 1), catalog_record(2, gone)),
            ],
        )
        .unwrap();
    assert!(!again.state.has_graph("g"));
}

#[test]
fn flushed_catalogs_bring_their_graphs_back() {
    let mut r = Recovery::start(Some(&manifest()));
    r.apply_persisted_catalog_entries(&vec![graph_node("g", 1)]);
    assert!(r.state.has_graph("g"));
}

#[test]
fn positions_go_by_epoch_then_by_offset() {
    assert!(position(0, 9).as_u64() < position(1, 0).as_u64());
    assert!(position(1, 0).as_u64() < position(1, 1).as_u64());
    assert_eq!((position(3, 4).epoch(), position(3, 4).offset()), (3, 4));
}
