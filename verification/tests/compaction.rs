//! Choosing, merging and routing blocks.

use varve_engine::compact::manifest::compacted_manifest;
use varve_engine::compact::merge::{merge_inputs, page_range, pages_in_order};
use varve_engine::compact::route::{candidates, recency_for, route_blocks, Verdict};
use varve_engine::compact::run::{job_order, latest_of, plan_compaction};
use varve_engine::compact::select::{select_compaction_jobs, Catalog};
use varve_engine::compact::{
    CompactionConfig, CompactionJob, CompactionKind, CompactionOutputPlan,
};
use varve_engine::doc::Doc;
use varve_engine::error::EngineError;
use varve_engine::event::{Event, Op};
use varve_engine::flush::{BlockManifest, SortOrder, TableTries, ADJ_IN, ADJ_OUT};
use varve_engine::sorted::SortedMap;
use varve_engine::state::{PageMeta, TrieEntry};
use varve_engine::trie::{Recency, TableScope, TrieKey, LOG_LIMIT, PAGE_LIMIT};
use varve_engine::types::{Iid, Instant, Value};

fn entry(key: &str) -> TrieEntry {
    TrieEntry { trie_key: key.to_string(), row_count: 1, data_len: 10 }
}

fn l1(block: u64) -> TrieKey {
    TrieKey { level: 1, recency: Recency::Current, part: Vec::new(), block }
}

fn nodes() -> TableScope {
    TableScope::new("default", "nodes", "")
}

fn catalog(keys: Vec<(TrieKey, u64)>) -> Catalog {
    SortedMap::from_list(keys.into_iter().map(|(key, size)| ((nodes(), key), size)).collect())
}

fn empty_manifest(tables: Vec<TableTries>) -> BlockManifest {
    BlockManifest { block_id: 7, watermark: 8, max_tx_id: 9, max_system_time_us: 10, tables }
}

fn job_for_scope(scope: TableScope) -> CompactionJob {
    CompactionJob {
        scope,
        input_trie_keys: vec![TrieKey::l0(0)],
        output_plan: CompactionOutputPlan::L0RecencySplit { level: 1, part: Vec::new(), block: 0 },
    }
}

fn shown<T: std::fmt::Debug>(value: &T) -> String {
    format!("{value:?}")
}

#[test]
fn target_sort_order_matches_table_scope() {
    assert_eq!(
        job_for_scope(TableScope::new("default", "nodes", "")).target_sort_order(),
        Some(SortOrder::ByIid)
    );
    assert_eq!(
        job_for_scope(TableScope::new("default", "edges", "")).target_sort_order(),
        Some(SortOrder::ByIid)
    );
    assert_eq!(
        job_for_scope(TableScope::new("default", "edges", ADJ_OUT)).target_sort_order(),
        Some(SortOrder::BySrc)
    );
    assert_eq!(
        job_for_scope(TableScope::new("default", "edges", ADJ_IN)).target_sort_order(),
        Some(SortOrder::ByDst)
    );
}

#[test]
fn compaction_config_defaults_match_public_limits() {
    let config = CompactionConfig::default();
    assert_eq!(PAGE_LIMIT, 1024);
    assert_eq!(config.log_limit, 64);
    assert_eq!(config.file_size_target, 104_857_600);
}

#[test]
fn target_sort_order_returns_none_for_unknown_scope() {
    assert_eq!(
        job_for_scope(TableScope::new("default", "widgets", "")).target_sort_order(),
        None
    );
    assert_eq!(
        job_for_scope(TableScope::new("default", "edges", "adj-sideways")).target_sort_order(),
        None
    );
}

#[test]
fn compacted_manifest_replaces_inputs_adds_outputs_and_sorts_tries() {
    let latest = empty_manifest(vec![TableTries {
        graph: "default".to_string(),
        table: "nodes".to_string(),
        family: String::new(),
        tries: vec![
            entry("l00-rc-b01"),
            entry("l00-rc-b02"),
            entry("l00-rc-b03"),
            entry("l01-rc-b10"),
        ],
    }]);
    let compacted = compacted_manifest(
        &latest,
        11,
        &nodes(),
        &vec!["l00-rc-b02".to_string(), "l00-rc-b03".to_string()],
        vec![entry("l01-rc-b04"), entry("l01-rc-b00")],
    );
    assert_eq!(compacted.block_id, 11);
    assert_eq!(compacted.watermark, latest.watermark);
    assert_eq!(compacted.max_tx_id, latest.max_tx_id);
    assert_eq!(compacted.max_system_time_us, latest.max_system_time_us);
    assert_eq!(compacted.tables.len(), 1);
    assert_eq!(compacted.tables[0].graph, "default");
    assert_eq!(compacted.tables[0].table, "nodes");
    assert_eq!(compacted.tables[0].family, "");
    assert_eq!(
        compacted.tables[0]
            .tries
            .iter()
            .map(|entry| entry.trie_key.as_str())
            .collect::<Vec<_>>(),
        vec!["l00-rc-b01", "l01-rc-b00", "l01-rc-b04", "l01-rc-b10"]
    );
}

#[test]
fn compacted_manifest_adds_missing_scope_when_outputs_are_non_empty() {
    let scope = TableScope::new("default", "edges", ADJ_OUT);
    let latest = empty_manifest(Vec::new());
    let compacted = compacted_manifest(
        &latest,
        11,
        &scope,
        &vec!["l00-rc-b00".to_string()],
        vec![entry("l01-rc-b00")],
    );
    assert_eq!(compacted.tables.len(), 1);
    assert_eq!(compacted.tables[0].graph, "default");
    assert_eq!(compacted.tables[0].table, "edges");
    assert_eq!(compacted.tables[0].family, ADJ_OUT);
    assert_eq!(
        compacted.tables[0]
            .tries
            .iter()
            .map(|entry| entry.trie_key.as_str())
            .collect::<Vec<_>>(),
        vec!["l01-rc-b00"]
    );
}

#[test]
fn selects_l0_job_when_log_limit_reached() {
    let keys = (0..64).map(|block| (TrieKey::l0(block), 10)).collect();
    let jobs = select_compaction_jobs(&catalog(keys), &CompactionConfig::default());
    assert_eq!(jobs.len(), 1);
    let job = &jobs[0];
    assert_eq!(job.kind(), CompactionKind::L0ToL1Split);
    assert!(job.scope.same(&nodes()));
    assert_eq!(job.input_trie_keys.len(), 64);
    assert!(job.input_trie_keys[0].same(&TrieKey::l0(0)));
    assert_eq!(
        shown(&job.output_plan),
        shown(&CompactionOutputPlan::L0RecencySplit { level: 1, part: Vec::new(), block: 63 })
    );
}

#[test]
fn selects_l0_recency_split_outputs() {
    let keys = (0..LOG_LIMIT).map(|block| (TrieKey::l0(block as u64), 10)).collect();
    let jobs = select_compaction_jobs(&catalog(keys), &CompactionConfig::default());
    assert_eq!(jobs.len(), 1);
    let job = &jobs[0];
    assert_eq!(job.kind(), CompactionKind::L0ToL1Split);
    assert_eq!(
        shown(&job.output_plan),
        shown(&CompactionOutputPlan::L0RecencySplit {
            level: 1,
            part: Vec::new(),
            block: (LOG_LIMIT - 1) as u64,
        })
    );
}

#[test]
fn partial_same_shard_files_do_not_schedule_compaction() {
    let keys = (0..4).map(|block| (l1(block), 10)).collect();
    let jobs = select_compaction_jobs(&catalog(keys), &CompactionConfig::default());
    assert!(jobs.is_empty());
}

#[test]
fn selects_four_full_same_shard_level_jobs() {
    let config = CompactionConfig::default();
    let keys = (0..4).map(|block| (l1(block), config.file_size_target)).collect();
    let jobs = select_compaction_jobs(&catalog(keys), &config);
    assert_eq!(jobs.len(), 1);
    let job = &jobs[0];
    assert_eq!(job.kind(), CompactionKind::SameShard);
    assert_eq!(shown(&job.input_trie_keys), shown(&vec![l1(0), l1(1), l1(2), l1(3)]));
    let part = |p: u8| TrieKey { level: 2, recency: Recency::Current, part: vec![p], block: 3 };
    assert_eq!(
        shown(&job.output_plan),
        shown(&CompactionOutputPlan::Exact(vec![part(0), part(1), part(2), part(3)]))
    );
}

#[test]
fn same_shard_selection_skips_partial_files_and_preserves_full_file_order() {
    let config = CompactionConfig { file_size_target: 100, ..CompactionConfig::default() };
    let keys = [(0, 99), (1, 100), (2, 1), (3, 101), (4, 100), (5, 200)]
        .into_iter()
        .map(|(block, data_len)| (l1(block), data_len))
        .collect();
    let jobs = select_compaction_jobs(&catalog(keys), &config);
    assert_eq!(jobs.len(), 1);
    assert_eq!(
        shown(&jobs[0].input_trie_keys),
        shown(&vec![l1(1), l1(3), l1(4), l1(5)])
    );
}

#[test]
fn job_selection_is_order_independent() {
    let forward = (0..64).map(|block| (TrieKey::l0(block), 10)).collect();
    let reverse = (0..64).rev().map(|block| (TrieKey::l0(block), 10)).collect();
    assert_eq!(
        shown(&select_compaction_jobs(&catalog(forward), &CompactionConfig::default())),
        shown(&select_compaction_jobs(&catalog(reverse), &CompactionConfig::default()))
    );
}

#[test]
fn no_block_goes_into_two_jobs() {
    let config = CompactionConfig::default();
    let keys = (0..70)
        .map(|block| (TrieKey::l0(block), 10))
        .chain((0..5).map(|block| (l1(block), config.file_size_target)))
        .collect();
    let jobs = select_compaction_jobs(&catalog(keys), &config);
    assert_eq!(jobs.len(), 2);
    let inputs: Vec<&TrieKey> = jobs.iter().flat_map(|j| j.input_trie_keys.iter()).collect();
    assert_eq!(inputs.len(), 68);
    for (i, a) in inputs.iter().enumerate() {
        assert!(inputs[i + 1..].iter().all(|b| !a.same(b)));
    }
}

#[test]
fn duplicate_output_key_for_same_catalog_state() {
    let config = CompactionConfig::default();
    let keys = (0..4).map(|block| (l1(block), config.file_size_target)).collect();
    let catalog = catalog(keys);
    let a = select_compaction_jobs(&catalog, &config);
    let b = select_compaction_jobs(&catalog, &config);
    assert_eq!(shown(&a), shown(&b));
}

fn us(n: i64) -> Instant {
    Instant::from_micros(n)
}

fn iid(n: u8) -> Iid {
    Iid { bits: (n as u128) << 100 }
}

fn put(entity: u8, system_from: i64, valid_from: Instant, valid_to: Instant, marker: &str) -> Event {
    let mut doc = Doc::new();
    doc.insert("marker".to_string(), Value::Str(marker.to_string()));
    Event {
        iid: iid(entity),
        system_from: us(system_from),
        valid_from,
        valid_to,
        src: None,
        dst: None,
        op: Op::Put { labels: vec!["P".to_string()], doc },
    }
}

fn erase(entity: u8, system_from: i64) -> Event {
    Event {
        iid: iid(entity),
        system_from: us(system_from),
        valid_from: Instant::earliest(),
        valid_to: Instant::end_of_time(),
        src: None,
        dst: None,
        op: Op::Erase,
    }
}

/// The events of a block as it holds them: by identity, the newest first.
fn input_block(mut events: Vec<Event>) -> Vec<Event> {
    events.reverse();
    events.sort_by_key(|e| e.iid.bits);
    events
}

fn l0_plan() -> CompactionOutputPlan {
    CompactionOutputPlan::L0RecencySplit { level: 1, part: Vec::new(), block: 1 }
}

/// Merges and routes blocks where no candidate is superseded: each may be seen
/// until the end of its own validity.
fn write_compacted_blocks(inputs: Vec<(TrieKey, Vec<Event>)>) -> Vec<(TrieKey, Vec<Event>)> {
    let merged = merge_inputs(&SortedMap::from_list(inputs));
    let mut verdicts: SortedMap<Iid, Vec<Verdict>> = SortedMap::new();
    for i in 0..merged.len() {
        let events = merged.value_at(i);
        let list = candidates(events)
            .into_iter()
            .map(|k| Verdict { ranges: 1, recency: events[k].valid_to })
            .collect();
        verdicts.insert(*merged.key_at(i), list);
    }
    let routed = route_blocks(&l0_plan(), SortOrder::ByIid, &merged, &verdicts).unwrap();
    let mut out = Vec::new();
    for i in 0..routed.len() {
        let events = routed.value_at(i).iter().map(|e| e.clone_event()).collect();
        out.push((routed.key_at(i).clone_key(), events));
    }
    out
}

fn only_events(outputs: &[(TrieKey, Vec<Event>)]) -> Vec<&Event> {
    outputs.iter().flat_map(|(_, events)| events.iter()).collect()
}

#[test]
fn compacted_output_is_byte_identical_for_permuted_inputs() {
    let a = || input_block(vec![put(1, 1, us(1), Instant::end_of_time(), "a")]);
    let b = || input_block(vec![put(2, 2, us(2), Instant::end_of_time(), "b")]);
    let forward = write_compacted_blocks(vec![(TrieKey::l0(0), a()), (TrieKey::l0(1), b())]);
    let reverse = write_compacted_blocks(vec![(TrieKey::l0(1), b()), (TrieKey::l0(0), a())]);
    assert_eq!(forward.len(), reverse.len());
    assert_eq!(only_events(&forward).len(), 2);
    for (left, right) in forward.iter().zip(reverse.iter()) {
        assert!(left.0.same(&right.0));
        assert_eq!(shown(&left.1), shown(&right.1));
    }
}

#[test]
fn compacted_events_are_sorted_by_iid_and_system_desc() {
    let input = input_block(vec![
        put(1, 1, us(1), Instant::end_of_time(), "old"),
        put(2, 2, us(2), Instant::end_of_time(), "other"),
        put(1, 3, us(3), Instant::end_of_time(), "new"),
    ]);
    let outputs = write_compacted_blocks(vec![(TrieKey::l0(0), input)]);
    let events = only_events(&outputs);
    assert_eq!(events.len(), 3);
    for pair in events.windows(2) {
        assert!(
            pair[0].iid.bits < pair[1].iid.bits
                || (pair[0].iid.bits == pair[1].iid.bits
                    && pair[0].system_from >= pair[1].system_from),
            "events must be (_iid asc, _system_from desc)"
        );
    }
}

#[test]
fn l0_compaction_routes_current_and_weekly_historical_outputs() {
    // 2020-01-01 and 2020-01-08, both at midnight UTC.
    let historical_from = us(1_577_836_800_000_000);
    let historical_to = us(1_578_441_600_000_000);
    let input = input_block(vec![
        put(1, 1, historical_from, historical_to, "hist"),
        put(2, 2, us(2), Instant::end_of_time(), "current"),
    ]);
    let outputs = write_compacted_blocks(vec![(TrieKey::l0(0), input)]);
    let keys: Vec<&TrieKey> = outputs.iter().map(|(key, _)| key).collect();
    let key = |recency| TrieKey { level: 1, recency, part: Vec::new(), block: 1 };
    assert_eq!(
        shown(&keys),
        shown(&vec![&key(Recency::Current), &key(Recency::Week { yyyymmdd: 20200106 })])
    );
}

#[test]
fn erase_drops_prior_bytes_but_keeps_later_reinsert() {
    let input = input_block(vec![
        put(1, 1, us(1), Instant::end_of_time(), "secret-before"),
        erase(1, 2),
        put(1, 3, us(3), Instant::end_of_time(), "after"),
    ]);
    let outputs = write_compacted_blocks(vec![(TrieKey::l0(0), input)]);
    let haystack = shown(&outputs);
    assert_eq!(only_events(&outputs).len(), 1);
    assert!(haystack.contains("after"));
    assert!(!haystack.contains("secret-before"));
}

#[test]
fn a_full_compaction_takes_fewer_new_blocks() {
    let keys = || (0..3).map(|block| (TrieKey::l0(block), 10)).collect();
    assert!(plan_compaction(&catalog(keys()), false).is_none());
    let job = plan_compaction(&catalog(keys()), true).unwrap();
    assert_eq!(job.input_trie_keys.len(), 3);
}

#[test]
fn an_unknown_inventory_has_no_order() {
    assert!(matches!(job_order(&job_for_scope(nodes())), Ok(SortOrder::ByIid)));
    assert!(matches!(
        job_order(&job_for_scope(TableScope::new("default", "widgets", "odd"))),
        Err(EngineError::UnknownTable(text)) if text == "widgets/odd"
    ));
}

#[test]
fn page_ranges_lie_in_the_data() {
    assert_eq!(page_range(10, 2, 8).unwrap(), (2, 10));
    assert!(page_range(10, 3, 8).is_err());
    assert!(page_range(10, u64::MAX, 1).is_err());
}

#[test]
fn weeks_begin_on_monday() {
    // 1970-01-01 was a Thursday, 1970-01-05 a Monday.
    assert_eq!(recency_for(us(0)), Recency::Week { yyyymmdd: 19691229 });
    assert_eq!(recency_for(us(4 * 86_400_000_000)), Recency::Week { yyyymmdd: 19700105 });
    assert_eq!(recency_for(Instant::end_of_time()), Recency::Current);
}

#[test]
fn the_newest_manifest_has_the_highest_number() {
    let numbered = |block_id| BlockManifest { block_id, ..empty_manifest(Vec::new()) };
    assert_eq!(latest_of(&vec![numbered(3), numbered(9), numbered(4)]), Some(1));
    assert_eq!(latest_of(&Vec::new()), None);
}

#[test]
fn pages_are_read_in_the_order_of_the_data() {
    let page = |offset| PageMeta {
        path: Vec::new(),
        offset,
        len: 1,
        rows: 1,
        min_iid: iid(0),
        max_iid: iid(9),
        min_system_from: us(1),
        max_system_from: us(1),
        min_valid_from: us(1),
        max_valid_from: us(1),
        min_valid_to: Instant::end_of_time(),
        max_valid_to: Instant::end_of_time(),
        has_erase: false,
    };
    let sorted = pages_in_order(vec![page(8), page(0), page(4)]);
    let offsets: Vec<u64> = sorted.iter().map(|p| p.offset).collect();
    assert_eq!(offsets, vec![0, 4, 8]);
}
