//! Starting a node.

use varve_engine::coord::WriterGrant;
use varve_engine::error::EngineError;
use varve_engine::node::{NodeRole, NodeTuning};
use varve_engine::open::{
    assemble, check_durability, default_settings, probe_key, writer_lookup, Backends, Durability,
    Lookup, OpenAction, OpenEvent, OpenPhase, Opening, Settings, Tunings,
};
use varve_engine::tuning::{
    default_cache_tiers, GcTuning, LogTuning, QueryTuning, StorageTuning,
};
use varve_engine::types::LogPosition;

fn text(t: &str) -> String {
    t.to_string()
}

fn backends(log: Option<&str>, coordinator: Option<&str>) -> Backends {
    Backends {
        storage: None,
        log: log.map(text),
        clock: None,
        coordinator: coordinator.map(text),
    }
}

fn tunings(roles: Vec<NodeRole>) -> Tunings {
    let Settings { node, .. } = default_settings(false);
    Tunings {
        log: LogTuning::default(),
        storage: StorageTuning::default(),
        query: QueryTuning::default(),
        gc: GcTuning::default(),
        node: NodeTuning { roles, ..node },
    }
}

/// A node that has come to the point where its tunings are read.
fn until_tunings(b: Backends) -> Opening {
    let (mut opening, first) = Opening::start(b);
    assert!(matches!(first, OpenAction::BuildStorage(name) if name == "memory"));
    opening.step(Ok(OpenEvent::StorageBuilt(Durability::Volatile))).unwrap();
    assert!(matches!(
        opening.step(Ok(OpenEvent::LogBuilt(Durability::Volatile))).unwrap(),
        OpenAction::ReadTiers
    ));
    let tiers = vec![text("disk"), text("memory")];
    assert!(matches!(
        opening.step(Ok(OpenEvent::TiersRead(tiers))).unwrap(),
        OpenAction::BuildTier(name) if name == "memory"
    ));
    assert!(matches!(
        opening.step(Ok(OpenEvent::TierBuilt)).unwrap(),
        OpenAction::BuildTier(name) if name == "disk"
    ));
    assert!(matches!(
        opening.step(Ok(OpenEvent::TierBuilt)).unwrap(),
        OpenAction::BuildClock(name) if name == "system"
    ));
    assert!(matches!(
        opening.step(Ok(OpenEvent::ClockBuilt)).unwrap(),
        OpenAction::ReadTunings
    ));
    opening
}

#[test]
fn tiers_of_one_name_are_each_built() {
    let (mut opening, _) = Opening::start(backends(None, None));
    opening.step(Ok(OpenEvent::StorageBuilt(Durability::Volatile))).unwrap();
    opening.step(Ok(OpenEvent::LogBuilt(Durability::Volatile))).unwrap();
    let tiers = vec![text("memory"), text("disk"), text("memory")];
    let mut action = opening.step(Ok(OpenEvent::TiersRead(tiers))).unwrap();
    for (left, want) in [(2, "memory"), (1, "disk"), (0, "memory")] {
        assert!(matches!(action, OpenAction::BuildTier(name) if name == want));
        assert_eq!(opening.phase, OpenPhase::Tier(left));
        action = opening.step(Ok(OpenEvent::TierBuilt)).unwrap();
    }
    assert!(matches!(action, OpenAction::BuildClock(_)));
}

#[test]
fn a_writer_is_granted_before_it_recovers() {
    let mut opening = until_tunings(backends(Some("object-store"), Some("cas-failover")));
    let action = opening.step(Ok(OpenEvent::TuningsRead(tunings(vec![NodeRole::Writer])))).unwrap();
    assert!(matches!(action, OpenAction::BuildCoordinator(name) if name == "cas-failover"));
    let action = opening.step(Ok(OpenEvent::CoordinatorBuilt(5000))).unwrap();
    assert!(matches!(action, OpenAction::Acquire));
    let grant = WriterGrant { epoch: Some(3) };
    let action = opening.step(Ok(OpenEvent::Granted(grant))).unwrap();
    assert!(matches!(action, OpenAction::Recover));
    let action = opening.step(Ok(OpenEvent::Recovered)).unwrap();
    assert!(matches!(action, OpenAction::StartEpoch(3)));
    let action = opening.step(Ok(OpenEvent::EpochStarted)).unwrap();
    assert!(matches!(action, OpenAction::Assemble));
    let settings = opening.settings.unwrap();
    let node = assemble(settings, opening.heartbeat_ms, 4, LogPosition::zero());
    assert!(node.writer && !node.follower && node.heartbeat);
    assert_eq!(node.progress.applied.tx_id, 4);
}

#[test]
fn a_query_node_needs_no_coordinator() {
    let mut opening = until_tunings(backends(None, None));
    let action = opening.step(Ok(OpenEvent::TuningsRead(tunings(vec![NodeRole::Query])))).unwrap();
    assert!(matches!(action, OpenAction::Recover));
    let action = opening.step(Ok(OpenEvent::Recovered)).unwrap();
    assert!(matches!(action, OpenAction::Assemble));
    let node =
        assemble(opening.settings.unwrap(), opening.heartbeat_ms, 0, LogPosition::zero());
    assert!(!node.writer && node.follower && !node.heartbeat);
}

#[test]
fn a_shared_lease_needs_a_shared_log() {
    let mut opening = until_tunings(backends(Some("local"), Some("cas-failover")));
    assert!(matches!(
        opening.step(Ok(OpenEvent::TuningsRead(tunings(vec![NodeRole::Writer])))),
        Err(EngineError::CasRequiresSharedLog(log)) if log == "local"
    ));
}

#[test]
fn a_node_needs_sound_roles() {
    let mut opening = until_tunings(backends(None, None));
    assert!(matches!(
        opening.step(Ok(OpenEvent::TuningsRead(tunings(Vec::new())))),
        Err(EngineError::InvalidNodeConfig(t)) if t == "[node] roles must not be empty"
    ));
}

#[test]
fn a_durable_log_needs_a_durable_store() {
    assert!(check_durability(Durability::Durable, Durability::Durable).is_ok());
    assert!(check_durability(Durability::Volatile, Durability::Volatile).is_ok());
    for store in [Durability::Volatile, Durability::Unknown] {
        assert!(matches!(
            check_durability(Durability::Durable, store),
            Err(EngineError::VolatileBlockStore)
        ));
    }
}

#[test]
fn a_failed_step_ends_the_start() {
    let (mut opening, _) = Opening::start(backends(None, None));
    assert!(matches!(
        opening.step(Err(EngineError::Registry(text("no such backend")))),
        Err(EngineError::Registry(t)) if t == "no such backend"
    ));
    assert_eq!(opening.phase, OpenPhase::Storage);
}

#[test]
fn defaults_of_a_node_without_a_configuration() {
    let settings = default_settings(true);
    assert_eq!(settings.log.group_commit_window_ms, 0);
    assert_eq!(default_settings(false).log.group_commit_window_ms, 15);
    assert!(settings.roles.contains(NodeRole::Compactor));
    assert_eq!(settings.query.max_path_depth, 10);
    assert_eq!(settings.gc.into_config().garbage_lifetime_us, 86_400_000_000);
}

#[test]
fn advertisements_are_looked_up_by_their_exact_key() {
    let near = vec![text("v1/writer.json.bak")];
    assert_eq!(writer_lookup(&near, false), Lookup::ListParent);
    assert_eq!(writer_lookup(&near, true), Lookup::Absent);
    assert_eq!(writer_lookup(&vec![text("v1/writer.json")], true), Lookup::Read);
}

#[test]
fn probes_have_keys_of_their_own() {
    let a = probe_key(5, &text("n1"));
    assert_eq!(a, "v1/probe/5-n1");
    assert_ne!(a, probe_key(5, &text("n2")));
}

#[test]
fn pages_are_cached_in_memory_by_default() {
    assert_eq!(default_cache_tiers(), vec!["memory"]);
}
