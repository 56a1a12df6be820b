//! Roles, tuning, identity and lag of a node.

use varve_engine::coord::identity::NodeIdSource;
use varve_engine::node::{
    default_basis_timeout_ms, default_roles, default_submission_queue_len,
    default_tail_batch_records, default_tail_poll_interval_ms, log_lag_records, NodeRole,
    NodeRoles, NodeStatus, NodeTuning, ProgressState,
};
use varve_engine::types::LogPosition;

fn tuning(submission_queue_len: usize) -> NodeTuning {
    NodeTuning {
        roles: default_roles(),
        tail_poll_interval_ms: default_tail_poll_interval_ms(),
        tail_batch_records: default_tail_batch_records(),
        basis_timeout_ms: default_basis_timeout_ms(),
        submission_queue_len,
    }
}

fn position(epoch: u16, offset: u64) -> LogPosition {
    match LogPosition::new(epoch, offset) {
        Ok(p) => p,
        Err(e) => panic!("{e:?}"),
    }
}

#[test]
fn a_zero_submission_queue_len_is_rejected() {
    let err = tuning(0)
        .validate()
        .expect_err("submission_queue_len = 0 must be rejected");
    assert!(
        err.contains("submission_queue_len"),
        "expected the error to name submission_queue_len, got {err:?}"
    );
}

#[test]
fn a_nonzero_submission_queue_len_is_accepted() {
    let (_, tuning) = tuning(1).validate().expect("nonzero queue len is valid");
    assert_eq!(tuning.submission_queue_len, 1);
}

#[test]
fn log_lag_records_is_an_offset_difference_within_the_same_epoch() {
    assert_eq!(log_lag_records(position(0, 3), position(0, 7)), 4);
}

#[test]
fn log_lag_records_approximates_across_an_epoch_boundary() {
    assert_eq!(log_lag_records(position(0, 3), position(1, 2)), 3);
}

#[test]
fn node_ids_are_32_hex_and_unique_per_call() {
    let mut source = NodeIdSource::new(4711);
    let a = source.generate_node_id(17);
    let b = source.generate_node_id(17);
    assert_eq!(a.len(), 32);
    assert!(a.chars().all(|c| c.is_ascii_hexdigit()));
    assert_ne!(a, b, "same-process calls must differ (counter)");
}

#[test]
fn node_ids_are_hashes_of_process_time_and_count() {
    let mut bytes: Vec<u8> = Vec::new();
    bytes.extend_from_slice(&7u128.to_le_bytes());
    bytes.extend_from_slice(&9u128.to_le_bytes());
    bytes.extend_from_slice(&0u128.to_le_bytes());
    let expected = format!("{:032x}", xxhash_rust::xxh3::xxh3_128(&bytes));
    assert_eq!(NodeIdSource::new(7).generate_node_id(9), expected);
}

#[test]
fn tuning_faults_are_named_one_by_one() {
    let mut none = tuning(1);
    none.roles = Vec::new();
    assert_eq!(none.validate().unwrap_err(), "[node] roles must not be empty");
    let mut batch = tuning(1);
    batch.tail_batch_records = 0;
    assert_eq!(
        batch.validate().unwrap_err(),
        "[node] tail_batch_records must be greater than zero"
    );
    let mut lone = tuning(1);
    lone.roles = vec![NodeRole::Compactor, NodeRole::Query];
    assert_eq!(
        lone.validate().unwrap_err(),
        "[node] compactor role requires writer role"
    );
    assert_eq!(
        tuning(0).validate().unwrap_err(),
        "[node] submission_queue_len must be greater than zero"
    );
    assert_eq!(default_submission_queue_len(), 256);
}

#[test]
fn roles_are_listed_in_order_and_once() {
    let roles = NodeRoles::of(&vec![NodeRole::Query, NodeRole::Writer, NodeRole::Query]);
    assert_eq!(roles.iter(), vec![NodeRole::Writer, NodeRole::Query]);
    assert!(!roles.contains(NodeRole::Compactor));
    assert!(!roles.is_empty());
    assert_eq!(NodeRoles::all().iter().len(), 3);
}

#[test]
fn the_status_names_the_latest_manifest() {
    let progress = ProgressState::running(3, position(0, 4), position(0, 6));
    let status = NodeStatus::of(NodeRoles::all(), progress.clone_progress(), Some((9, 4)));
    assert_eq!(status.manifest_block_id, Some(9));
    assert_eq!(status.manifest_watermark, position(0, 4));
    assert_eq!(status.log_head, position(0, 6));
    assert_eq!(status.applied.tx_id, 3);
    let fresh = NodeStatus::of(NodeRoles::all(), progress, None);
    assert_eq!(fresh.manifest_block_id, None);
    assert_eq!(fresh.manifest_watermark, LogPosition::zero());
}
