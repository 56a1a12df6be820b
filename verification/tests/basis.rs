//! Waiting until a node has applied as much as a reader asks for.

use varve_engine::basis::{
    basis_result_after_timeout_with, basis_satisfied, first_look, wait_for_basis,
    BasisTimeoutChannel, BasisTimeoutObservation, FirstLook, WaitEvent,
};
use varve_engine::error::EngineError;
use varve_engine::node::{AppliedProgress, BasisToken, ProgressState};
use varve_engine::types::LogPosition;

fn running(tx_id: u64, at: u64) -> ProgressState {
    ProgressState::running(tx_id, LogPosition::from_u64(at), LogPosition::from_u64(at))
}

fn seen(current: ProgressState, channel: BasisTimeoutChannel) -> BasisTimeoutObservation {
    BasisTimeoutObservation { current, channel }
}

fn after(
    basis: BasisToken,
    current: &ProgressState,
    channel: BasisTimeoutChannel,
) -> Result<(), EngineError> {
    basis_result_after_timeout_with(
        basis,
        &seen(current.clone_progress(), channel),
        &seen(current.clone_progress(), channel),
    )
}

#[test]
fn timeout_boundary_prefers_follower_error_over_satisfied_basis() {
    let mut progress = running(0, 0);
    progress.applied.tx_id = 7;
    progress.follower_error = Some("terminal".to_string());
    assert!(matches!(
        after(BasisToken::TxId(7), &progress, BasisTimeoutChannel::Open),
        Err(EngineError::FollowerFailed(error)) if error == "terminal"
    ));
}

#[test]
fn timeout_boundary_accepts_at_basis_at_or_below_current_position() {
    let progress = running(3, 7);
    assert!(after(
        BasisToken::At(LogPosition::from_u64(7)),
        &progress,
        BasisTimeoutChannel::Open
    )
    .is_ok());
    assert!(after(
        BasisToken::At(LogPosition::from_u64(6)),
        &progress,
        BasisTimeoutChannel::Open
    )
    .is_ok());
}

#[test]
fn timeout_boundary_reports_closed_progress_channel_before_timeout() {
    assert!(matches!(
        after(BasisToken::TxId(1), &running(0, 0), BasisTimeoutChannel::Closed),
        Err(EngineError::FollowerFailed(error)) if error == "progress channel closed"
    ));
}

#[test]
fn timeout_boundary_observes_final_update_before_closed_channel() {
    let mut progress = running(0, 0);
    progress.applied.tx_id = 7;
    progress.applied.log_position = LogPosition::from_u64(8);
    assert!(after(BasisToken::TxId(7), &progress, BasisTimeoutChannel::Closed).is_ok());
}

#[test]
fn timeout_boundary_uses_latest_progress_for_true_timeout() {
    assert!(matches!(
        after(BasisToken::TxId(5), &running(3, 4), BasisTimeoutChannel::Open),
        Err(EngineError::BasisTimeout {
            requested: BasisToken::TxId(5),
            applied: AppliedProgress { tx_id: 3, log_position },
        }) if log_position == LogPosition::from_u64(4)
    ));
}

#[test]
fn timeout_boundary_uses_bounded_snapshots_during_continuous_publication() {
    let first = seen(running(1, 1), BasisTimeoutChannel::Pending);
    let second = seen(running(2, 2), BasisTimeoutChannel::Pending);
    assert!(matches!(first_look(BasisToken::TxId(100), &first), FirstLook::Again));
    let result = basis_result_after_timeout_with(BasisToken::TxId(100), &first, &second);
    assert!(matches!(
        result,
        Err(EngineError::BasisTimeout {
            applied: AppliedProgress { tx_id: 2, .. },
            ..
        })
    ));
}

#[test]
fn a_waiter_waits_on_until_something_decides() {
    let basis = BasisToken::TxId(2);
    assert!(wait_for_basis(basis, WaitEvent::Current(running(1, 1))).is_none());
    assert!(matches!(
        wait_for_basis(basis, WaitEvent::Current(running(2, 2))),
        Some(Ok(()))
    ));
    assert!(matches!(
        wait_for_basis(basis, WaitEvent::Closed),
        Some(Err(EngineError::FollowerFailed(text))) if text == "progress channel closed"
    ));
}

#[test]
fn progress_satisfies_what_lies_behind_it() {
    let applied = AppliedProgress { tx_id: 4, log_position: LogPosition::from_u64(9) };
    assert!(basis_satisfied(BasisToken::TxId(4), applied));
    assert!(!basis_satisfied(BasisToken::TxId(5), applied));
    assert!(basis_satisfied(BasisToken::At(LogPosition::from_u64(9)), applied));
    assert!(!basis_satisfied(BasisToken::At(LogPosition::from_u64(10)), applied));
}
