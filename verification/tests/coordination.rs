//! Who may write.

use varve_engine::coord::cas::{
    heartbeat, AcquireAction, AcquireEvent, AcquireState, CondPut, HeldLease, ProbeVerdict,
    Renewal,
};
use varve_engine::coord::designated::{acquire, advertisement};
use varve_engine::coord::{
    default_heartbeat_interval_ms, default_takeover_after_ms, heartbeat_continues, lease_block,
    CoordTuning, LeaseState,
};
use varve_engine::error::EngineError;
use varve_engine::types::LogPosition;

fn text(t: &str) -> String {
    t.to_string()
}

fn supported() -> AcquireEvent {
    AcquireEvent::Probed { verdict: ProbeVerdict::Supported, conditional: true }
}

fn stored(etag: &str) -> AcquireEvent {
    AcquireEvent::Put(CondPut::Stored { etag: Some(text(etag)) })
}

fn held() -> HeldLease {
    HeldLease { etag: text("e1"), epoch: 4, valid_until: 100 }
}

#[test]
fn the_first_lease_goes_on_in_the_epoch_of_the_log() {
    let (state, action) = AcquireState::Probing.acquire(supported(), 0, 10);
    assert!(matches!(action, AcquireAction::ReadLease));
    let (state, action) = state.acquire(AcquireEvent::Lease(None), 1, 10);
    assert!(matches!(action, AcquireAction::ReadHead));
    let head = LogPosition::new(3, 7).unwrap();
    let (state, action) = state.acquire(AcquireEvent::Head(head), 2, 10);
    assert!(matches!(action, AcquireAction::Create { epoch: 3 }));
    let (_, action) = state.acquire(stored("e"), 5, 10);
    match action {
        AcquireAction::Grant { grant, held } => {
            assert_eq!(grant.epoch, None);
            assert_eq!((held.epoch, held.valid_until), (3, 15));
            assert_eq!(held.etag, "e");
        }
        other => panic!("{other:?}"),
    }
}

#[test]
fn a_lease_that_does_not_change_is_seized_and_fenced() {
    let lease = || AcquireEvent::Lease(Some((4, text("old"))));
    let (state, _) = AcquireState::Probing.acquire(supported(), 0, 10);
    let (state, action) = state.acquire(lease(), 0, 10);
    assert!(matches!(action, AcquireAction::Sleep));
    let (state, action) = state.acquire(AcquireEvent::Woke, 10, 10);
    assert!(matches!(action, AcquireAction::ReadLease));
    let (state, action) = state.acquire(lease(), 11, 10);
    assert!(matches!(action, AcquireAction::Seize { etag, epoch: 5 } if etag == "old"));
    let (state, action) = state.acquire(stored("new"), 12, 10);
    assert!(matches!(action, AcquireAction::ReadHead));
    let head = LogPosition::new(4, 9).unwrap();
    let (state, action) = state.acquire(AcquireEvent::Head(head), 13, 10);
    assert!(matches!(action, AcquireAction::WriteFence { epoch: 4, offset: 9 }));
    let (_, action) = state.acquire(AcquireEvent::Fenced, 14, 10);
    match action {
        AcquireAction::Grant { grant, held } => {
            assert_eq!(grant.epoch, Some(5));
            // The lease runs from before it was seized.
            assert_eq!((held.epoch, held.valid_until), (5, 21));
        }
        other => panic!("{other:?}"),
    }
}

#[test]
fn a_live_holder_keeps_the_standby_waiting() {
    let waiting = AcquireState::Rechecking { epoch: 4, etag: text("old") };
    let (state, action) =
        waiting.acquire(AcquireEvent::Lease(Some((4, text("renewed")))), 11, 10);
    assert!(matches!(action, AcquireAction::ReadLease));
    let (_, action) = state.acquire(AcquireEvent::Lease(Some((4, text("renewed")))), 12, 10);
    assert!(matches!(action, AcquireAction::Sleep));
}

#[test]
fn the_last_epoch_cannot_be_seized() {
    let state = AcquireState::Rechecking { epoch: u16::MAX, etag: text("e") };
    let (_, action) =
        state.acquire(AcquireEvent::Lease(Some((u16::MAX, text("e")))), 1, 10);
    assert!(matches!(action, AcquireAction::Refuse(EngineError::EpochExhausted)));
}

#[test]
fn stores_without_conditional_writes_are_refused() {
    let refused = |verdict, conditional| {
        match AcquireState::Probing
            .acquire(AcquireEvent::Probed { verdict, conditional }, 0, 1)
            .1
        {
            AcquireAction::Refuse(EngineError::CasUnsupported { reason }) => reason,
            other => panic!("{other:?}"),
        }
    };
    assert_eq!(
        refused(ProbeVerdict::Unsupported { reason: text("no") }, true),
        "probe verdict Unsupported: no"
    );
    assert_eq!(
        refused(ProbeVerdict::Inconsistent { reason: text("odd") }, true),
        "probe verdict Inconsistent: odd"
    );
    assert_eq!(
        refused(ProbeVerdict::Supported, false),
        "backend exposes no conditional-write API"
    );
}

#[test]
fn a_renewed_lease_runs_from_the_renewal() {
    let renewal = Renewal::Answered(CondPut::Stored { etag: Some(text("e2")) });
    let (kept, lease) = heartbeat(Some(held()), renewal, 50, 60, 30);
    let kept = kept.unwrap();
    assert_eq!((kept.epoch, kept.valid_until), (4, 80));
    assert_eq!(kept.etag, "e2");
    assert!(matches!(lease, LeaseState::ValidUntil(80)));
    assert!(heartbeat_continues(&lease));
}

#[test]
fn a_seized_lease_is_lost() {
    let renewal = Renewal::Answered(CondPut::PreconditionFailed);
    let (kept, lease) = heartbeat(Some(held()), renewal, 50, 60, 30);
    assert!(kept.is_none());
    assert!(!heartbeat_continues(&lease));
    assert_eq!(lease_block(&lease, 0), Some(text("lease seized by another writer")));
}

#[test]
fn a_failed_renewal_leaves_the_lease_its_time() {
    let failed = || Renewal::Failed(text("timeout"));
    let (kept, lease) = heartbeat(Some(held()), failed(), 90, 99, 30);
    assert!(kept.is_some());
    assert!(matches!(lease, LeaseState::ValidUntil(100)));
    assert_eq!(lease_block(&lease, 99), None);
    assert_eq!(lease_block(&lease, 100), Some(text("lease expired before ack")));
    let (_, lease) = heartbeat(Some(held()), failed(), 90, 100, 30);
    assert_eq!(
        lease_block(&lease, 0),
        Some(text("lease renewal failed past the takeover window: timeout"))
    );
    let (_, lease) = heartbeat(None, failed(), 90, 100, 30);
    assert_eq!(lease_block(&lease, 0), Some(text("no lease held")));
}

#[test]
fn a_fresh_foreign_heartbeat_refuses_the_start() {
    let other = Some(advertisement(text("host:1"), &text("n1"), 5_000_000));
    assert!(matches!(
        acquire(&other, &text("n2"), 5_002_000, 15_000),
        Err(EngineError::WriterActive { address, age_ms: 2, takeover_after_ms: 15_000 })
            if address == "host:1"
    ));
    assert_eq!(acquire(&other, &text("n1"), 5_002_000, 15_000).unwrap().epoch, None);
    assert!(acquire(&other, &text("n2"), 20_000_000, 15_000).is_ok());
    assert!(acquire(&None, &text("n2"), 0, 15_000).is_ok());
}

#[test]
fn a_takeover_leaves_time_for_two_heartbeats() {
    let tuning = |beat, takeover| {
        CoordTuning { heartbeat_interval_ms: beat, takeover_after_ms: takeover }.validate()
    };
    assert_eq!(tuning(5, 10), Ok((5, 10)));
    assert_eq!(tuning(0, 0), Ok((0, 0)));
    assert_eq!(
        tuning(5, 9),
        Err(text("takeover_after_ms (9) must be at least 2x heartbeat_interval_ms (5)"))
    );
}

#[test]
fn the_default_takeover_is_three_heartbeats() {
    assert_eq!(default_heartbeat_interval_ms(), 5000);
    assert_eq!(default_takeover_after_ms(), 15000);
}
