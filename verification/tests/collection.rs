//! Which objects a collection deletes.

use varve_engine::flush::{BlockManifest, TableTries};
use varve_engine::gc::{plan_gc, GcAction, GcConfig, GcPlan, GcReport, GcRun, KeyClass};
use varve_engine::keys::{object_key, PROBE_PREFIX};
use varve_engine::sorted::SortedMap;
use varve_engine::state::TrieEntry;
use varve_engine::types::LogPosition;

fn entry(trie_key: &str) -> TrieEntry {
    TrieEntry { trie_key: trie_key.to_string(), row_count: 1, data_len: 8 }
}

fn manifest(block_id: u64, max_system_time_us: i64, tries: Vec<&str>) -> BlockManifest {
    BlockManifest {
        block_id,
        watermark: block_id,
        max_tx_id: block_id,
        max_system_time_us,
        tables: vec![TableTries {
            graph: "default".to_string(),
            table: "nodes".to_string(),
            family: String::new(),
            tries: tries.into_iter().map(entry).collect(),
        }],
    }
}

fn manifest_with_watermark(block_id: u64, watermark: u64, tries: Vec<&str>) -> BlockManifest {
    let mut m = manifest(block_id, 100, tries);
    m.watermark = watermark;
    m
}

fn enabled_config() -> GcConfig {
    GcConfig { enabled: true, blocks_to_keep: 0, garbage_lifetime_us: 0 }
}

fn data_key(graph: &str, table: &str, trie_key: &str) -> String {
    object_key(graph, table, "", "data", trie_key)
}

fn meta_key(graph: &str, table: &str, trie_key: &str) -> String {
    object_key(graph, table, "", "meta", trie_key)
}

fn manifest_key(block_id: u64) -> String {
    format!("v1/blocks/{block_id:020}.manifest")
}

fn position(epoch: u16, offset: u64) -> LogPosition {
    LogPosition::new(epoch, offset).unwrap()
}

fn log_key(at: LogPosition) -> String {
    format!("v1/log/{:04x}/{:012x}.vlog", at.epoch(), at.offset())
}

fn class_of(key: &str) -> KeyClass {
    let manifest_block = key
        .strip_prefix("v1/blocks/")
        .and_then(|k| k.strip_suffix(".manifest"))
        .and_then(|k| k.parse().ok());
    let log_position = key
        .strip_prefix("v1/log/")
        .and_then(|k| k.strip_suffix(".vlog"))
        .and_then(|k| k.split_once('/'))
        .map(|(epoch, offset)| {
            position(
                u16::from_str_radix(epoch, 16).unwrap(),
                u64::from_str_radix(offset, 16).unwrap(),
            )
            .as_u64()
        });
    KeyClass { manifest_block, log_position }
}

fn plan(manifests: Vec<BlockManifest>, listed_keys: Vec<String>, config: GcConfig) -> GcPlan {
    let mut listed: SortedMap<String, KeyClass> = SortedMap::new();
    for key in listed_keys {
        let class = class_of(&key);
        listed.insert(key, class);
    }
    plan_gc(&manifests, &listed, &config)
}

#[test]
fn gc_plan_keeps_objects_referenced_by_retained_manifests() {
    let manifests = vec![
        manifest(8, 80, vec!["l00-rc-b08"]),
        manifest(9, 90, vec!["l00-rc-b09"]),
        manifest(10, 100, vec!["l00-rc-b10"]),
    ];
    let mut config = enabled_config();
    config.blocks_to_keep = 1;
    let listed = vec![
        data_key("default", "nodes", "l00-rc-b09"),
        meta_key("default", "nodes", "l00-rc-b09"),
        data_key("default", "nodes", "l00-rc-b10"),
        meta_key("default", "nodes", "l00-rc-b10"),
        data_key("default", "nodes", "l00-rc-b08"),
        meta_key("default", "nodes", "l00-rc-b08"),
    ];
    let plan = plan(manifests, listed, config);
    assert!(!plan.delete_keys.contains(&data_key("default", "nodes", "l00-rc-b09")));
    assert!(!plan.delete_keys.contains(&meta_key("default", "nodes", "l00-rc-b09")));
    assert!(!plan.delete_keys.contains(&data_key("default", "nodes", "l00-rc-b10")));
    assert!(plan.delete_keys.contains(&data_key("default", "nodes", "l00-rc-b08")));
}

#[test]
fn gc_plan_deletes_orphan_data_meta_pairs() {
    let manifests = vec![manifest(10, 100, vec!["l00-rc-b10"])];
    let listed = vec![
        data_key("default", "nodes", "l00-rc-b10"),
        meta_key("default", "nodes", "l00-rc-b10"),
        data_key("default", "nodes", "l00-rc-b09"),
        meta_key("default", "nodes", "l00-rc-b09"),
    ];
    let plan = plan(manifests, listed, enabled_config());
    assert_eq!(
        plan.delete_keys,
        vec![
            data_key("default", "nodes", "l00-rc-b09"),
            meta_key("default", "nodes", "l00-rc-b09"),
        ]
    );
}

#[test]
fn gc_plan_deletes_old_unretained_manifests() {
    let manifests = vec![
        manifest(7, 70, vec!["l00-rc-b07"]),
        manifest(8, 80, vec!["l00-rc-b08"]),
        manifest(9, 90, vec!["l00-rc-b09"]),
    ];
    let mut config = enabled_config();
    config.blocks_to_keep = 1;
    let listed = vec![manifest_key(7), manifest_key(8), manifest_key(9)];
    let plan = plan(manifests, listed, config);
    assert_eq!(plan.delete_keys, vec![manifest_key(7)]);
}

#[test]
fn gc_plan_respects_blocks_to_keep_and_garbage_lifetime() {
    let manifests = || {
        vec![
            manifest(7, 700, vec!["l00-rc-b07"]),
            manifest(8, 800, vec!["l00-rc-b08"]),
            manifest(9, 900, vec!["l00-rc-b09"]),
        ]
    };
    let listed = vec![
        data_key("default", "nodes", "l00-rc-b07"),
        meta_key("default", "nodes", "l00-rc-b07"),
        data_key("default", "nodes", "l00-rc-b08"),
        meta_key("default", "nodes", "l00-rc-b08"),
    ];
    let protected_by_lifetime =
        GcConfig { enabled: true, blocks_to_keep: 0, garbage_lifetime_us: 150 };
    let expired = GcConfig { enabled: true, blocks_to_keep: 0, garbage_lifetime_us: 50 };
    let protected = plan(manifests(), listed.clone(), protected_by_lifetime);
    let expired = plan(manifests(), listed, expired);
    assert!(protected.delete_keys.is_empty());
    assert_eq!(
        expired.delete_keys,
        vec![
            data_key("default", "nodes", "l00-rc-b07"),
            meta_key("default", "nodes", "l00-rc-b07"),
        ]
    );
}

#[test]
fn gc_plan_sweeps_log_objects_wholly_below_the_min_retained_watermark() {
    let w = position(0, 4).as_u64();
    let manifests = vec![manifest_with_watermark(10, w, vec!["l00-rc-b10"])];
    let keys: Vec<String> =
        [0u64, 2, 4, 6].into_iter().map(|off| log_key(position(0, off))).collect();
    let plan = plan(manifests, keys.clone(), enabled_config());
    assert!(plan.delete_keys.contains(&keys[0]));
    assert!(plan.delete_keys.contains(&keys[1]));
    assert!(!plan.delete_keys.contains(&keys[2]));
    assert!(!plan.delete_keys.contains(&keys[3]));
}

#[test]
fn gc_plan_uses_the_minimum_watermark_across_retained_manifests() {
    let w9 = position(0, 2).as_u64();
    let w10 = position(0, 6).as_u64();
    let manifests = vec![
        manifest_with_watermark(9, w9, vec!["l00-rc-b09"]),
        manifest_with_watermark(10, w10, vec!["l00-rc-b10"]),
    ];
    let mut config = enabled_config();
    config.blocks_to_keep = 1;
    let keys: Vec<String> = [0u64, 2, 4].into_iter().map(|off| log_key(position(0, off))).collect();
    let plan = plan(manifests, keys.clone(), config);
    assert_eq!(
        plan.delete_keys
            .iter()
            .filter(|k| k.starts_with("v1/log"))
            .collect::<Vec<_>>(),
        vec![&keys[0]]
    );
}

#[test]
fn gc_plan_boundary_spanning_and_last_log_objects_are_kept() {
    let w = position(0, 3).as_u64();
    let manifests = vec![manifest_with_watermark(10, w, vec!["l00-rc-b10"])];
    let keys: Vec<String> = [0u64, 2].into_iter().map(|off| log_key(position(0, off))).collect();
    let plan = plan(manifests, keys.clone(), enabled_config());
    assert!(plan.delete_keys.contains(&keys[0]));
    assert!(!plan.delete_keys.contains(&keys[1]));
}

#[test]
fn gc_plan_sweeps_across_epoch_bumps_in_packed_order() {
    let w = position(1, 5).as_u64();
    let manifests = vec![manifest_with_watermark(10, w, vec!["l00-rc-b10"])];
    let positions = [position(0, 0), position(0, 3), position(1, 3), position(1, 5)];
    let keys: Vec<String> = positions.into_iter().map(log_key).collect();
    let plan = plan(manifests, keys.clone(), enabled_config());
    assert!(plan.delete_keys.contains(&keys[0]));
    assert!(plan.delete_keys.contains(&keys[1]));
    assert!(plan.delete_keys.contains(&keys[2]));
    assert!(!plan.delete_keys.contains(&keys[3]));
}

#[test]
fn gc_plan_keeps_foreign_keys_under_the_log_prefix() {
    let w = position(0, 9).as_u64();
    let manifests = vec![manifest_with_watermark(10, w, vec!["l00-rc-b10"])];
    let keys = vec!["v1/log/0000/notavlog.txt".to_string(), "v1/logish".to_string()];
    let plan = plan(manifests, keys, enabled_config());
    assert!(plan.delete_keys.iter().all(|k| !k.contains("log")));
}

#[test]
fn gc_plan_without_manifests_never_touches_log_objects() {
    let keys = vec![log_key(position(0, 0))];
    let plan = plan(Vec::new(), keys, enabled_config());
    assert!(plan.delete_keys.is_empty());
}

#[test]
fn gc_plan_sweeps_probe_objects_and_keeps_fence_and_writer_keys() {
    let manifests = vec![manifest(10, 100, vec!["l00-rc-b10"])];
    let keys = vec![
        format!("{PROBE_PREFIX}/deadbeef"),
        "v1/epochs/0001.json".to_string(),
        "v1/writer.json".to_string(),
    ];
    let plan = plan(manifests, keys, enabled_config());
    assert_eq!(plan.delete_keys, vec![format!("{PROBE_PREFIX}/deadbeef")]);
}

#[test]
fn a_collection_that_is_off_plans_nothing() {
    let mut config = enabled_config();
    config.enabled = false;
    let keys = vec![format!("{PROBE_PREFIX}/deadbeef")];
    assert!(plan(vec![manifest(10, 100, vec![])], keys, config).delete_keys.is_empty());
}

#[test]
fn a_collection_deletes_in_order_and_reports() {
    let plan = GcPlan { delete_keys: vec!["a".to_string(), "b".to_string()] };
    let (mut run, first) = GcRun::start(plan);
    assert!(matches!(first, GcAction::Delete(key) if key == "a"));
    assert!(matches!(run.step(Ok(())).unwrap(), GcAction::Delete(key) if key == "b"));
    assert!(matches!(
        run.step(Ok(())).unwrap(),
        GcAction::Report(GcReport { planned_objects: 2, deleted_objects: 2 })
    ));
}
