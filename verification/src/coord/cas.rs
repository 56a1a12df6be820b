//! Failover by a lease: a standby takes over when the holder stops renewing.
//!
//! The lease is one object, written only by conditional writes. Whether its
//! holder is gone is decided without comparing clocks: the lease is read twice,
//! a takeover time apart, and must not have changed in between.

use super::designated::WriterAdvertisement;
use super::{LeaseState, LeaseView, WriterGrant};
use crate::error::{EngineError, ErrorView};
use crate::text::{concat2, same_text};
use crate::types::LogPosition;
use vstd::prelude::*;

verus! {

/// The object that holds the lease.
pub const LEASE_KEY: &'static str = "v1/lease.json";

/// Whether the store's conditional writes work.
#[derive(Debug)]
pub enum ProbeVerdict {
    Supported,
    Unsupported { reason: String },
    Inconsistent { reason: String },
}

/// How a conditional write ended.
#[derive(Debug)]
pub enum CondPut {
    Stored { etag: Option<String> },
    AlreadyExists,
    PreconditionFailed,
    Unsupported { reason: String },
}

/// The lease that a writer holds: the version that its next renewal must find,
/// its epoch, and when it ends.
#[derive(Debug)]
pub struct HeldLease {
    pub etag: String,
    pub epoch: u16,
    pub valid_until: u64,
}

#[verifier::ext_equal]
pub struct HeldView {
    pub etag: Seq<char>,
    pub epoch: u16,
    pub valid_until: u64,
}

impl View for HeldLease {
    type V = HeldView;

    open spec fn view(&self) -> HeldView {
        HeldView { etag: self.etag@, epoch: self.epoch, valid_until: self.valid_until }
    }
}

/// Where a writer stands on its way to the lease.
#[derive(Debug)]
pub enum AcquireState {
    /// The store's conditional writes are being probed.
    Probing,
    /// The lease is being read.
    Reading,
    /// There is no lease; the head of the log is being read.
    FindingEpoch,
    /// The first lease is being written.
    Creating { epoch: u16 },
    /// There is a lease; a takeover time is being waited out.
    Waiting { epoch: u16, etag: String },
    /// The lease is being read again.
    Rechecking { epoch: u16, etag: String },
    /// The lease did not change; it is being written over.
    Seizing { new_epoch: u16, since: u64 },
    /// The lease is seized; the head of the log is being read.
    FindingHead { new_epoch: u16, etag: String, since: u64 },
    /// The seized epoch is being fenced.
    Fencing { new_epoch: u16, etag: String, since: u64 },
    /// The lease is held, or was refused.
    Finished,
}

pub enum AcquireView {
    Probing,
    Reading,
    FindingEpoch,
    Creating { epoch: u16 },
    Waiting { epoch: u16, etag: Seq<char> },
    Rechecking { epoch: u16, etag: Seq<char> },
    Seizing { new_epoch: u16, since: u64 },
    FindingHead { new_epoch: u16, etag: Seq<char>, since: u64 },
    Fencing { new_epoch: u16, etag: Seq<char>, since: u64 },
    Finished,
}

impl View for AcquireState {
    type V = AcquireView;

    open spec fn view(&self) -> AcquireView {
        match self {
            AcquireState::Probing => AcquireView::Probing,
            AcquireState::Reading => AcquireView::Reading,
            AcquireState::FindingEpoch => AcquireView::FindingEpoch,
            AcquireState::Creating { epoch } => AcquireView::Creating { epoch: *epoch },
            AcquireState::Waiting { epoch, etag } => AcquireView::Waiting {
                epoch: *epoch,
                etag: etag@,
            },
            AcquireState::Rechecking { epoch, etag } => AcquireView::Rechecking {
                epoch: *epoch,
                etag: etag@,
            },
            AcquireState::Seizing { new_epoch, since } => AcquireView::Seizing {
                new_epoch: *new_epoch,
                since: *since,
            },
            AcquireState::FindingHead { new_epoch, etag, since } => AcquireView::FindingHead {
                new_epoch: *new_epoch,
                etag: etag@,
                since: *since,
            },
            AcquireState::Fencing { new_epoch, etag, since } => AcquireView::Fencing {
                new_epoch: *new_epoch,
                etag: etag@,
                since: *since,
            },
            AcquireState::Finished => AcquireView::Finished,
        }
    }
}

/// What came back from the last action.
#[derive(Debug)]
pub enum AcquireEvent {
    /// The probe's verdict, and whether the store has conditional writes at all.
    Probed { verdict: ProbeVerdict, conditional: bool },
    /// The lease's epoch and version, or none.
    Lease(Option<(u16, String)>),
    /// The head of the log.
    Head(LogPosition),
    /// The outcome of the conditional write.
    Put(CondPut),
    /// The wait is over.
    Woke,
    /// The fence is stored.
    Fenced,
}

/// What to do next.
#[derive(Debug)]
pub enum AcquireAction {
    ReadLease,
    ReadHead,
    /// Write the first lease, at this epoch.
    Create { epoch: u16 },
    /// Wait a takeover time.
    Sleep,
    /// Write over the lease of this version, at this epoch.
    Seize { etag: String, epoch: u16 },
    /// Store a fence at this place of the log.
    WriteFence { epoch: u16, offset: u64 },
    /// The lease is held.
    Grant { grant: WriterGrant, held: HeldLease },
    /// The lease cannot be had.
    Refuse(EngineError),
}

pub enum ActionView {
    ReadLease,
    ReadHead,
    Create { epoch: u16 },
    Sleep,
    Seize { etag: Seq<char>, epoch: u16 },
    WriteFence { epoch: u16, offset: u64 },
    Grant { grant: WriterGrant, held: HeldView },
    Refuse(ErrorView),
}

impl View for AcquireAction {
    type V = ActionView;

    open spec fn view(&self) -> ActionView {
        match self {
            AcquireAction::ReadLease => ActionView::ReadLease,
            AcquireAction::ReadHead => ActionView::ReadHead,
            AcquireAction::Create { epoch } => ActionView::Create { epoch: *epoch },
            AcquireAction::Sleep => ActionView::Sleep,
            AcquireAction::Seize { etag, epoch } => ActionView::Seize {
                etag: etag@,
                epoch: *epoch,
            },
            AcquireAction::WriteFence { epoch, offset } => ActionView::WriteFence {
                epoch: *epoch,
                offset: *offset,
            },
            AcquireAction::Grant { grant, held } => ActionView::Grant {
                grant: *grant,
                held: held@,
            },
            AcquireAction::Refuse(e) => ActionView::Refuse(e@),
        }
    }
}

pub open spec fn cas_unsupported(reason: Seq<char>) -> ActionView {
    ActionView::Refuse(ErrorView::CasUnsupported { reason })
}

/// `now` and `span` later, or the last reading of the clock.
pub open spec fn later(now: u64, span: u64) -> u64 {
    if now + span > u64::MAX {
        u64::MAX
    } else {
        (now + span) as u64
    }
}

/// The next state and action. An event that does not answer the state's action
/// has no successor.
pub open spec fn acquire_spec(
    state: AcquireView,
    event: AcquireEvent,
    now: u64,
    takeover: u64,
) -> Option<(AcquireView, ActionView)> {
    let finished = AcquireView::Finished;
    match (state, event) {
        (AcquireView::Probing, AcquireEvent::Probed { verdict, conditional }) => Some(
            match verdict {
                ProbeVerdict::Unsupported { reason } => (
                    finished,
                    cas_unsupported("probe verdict Unsupported: "@ + reason@),
                ),
                ProbeVerdict::Inconsistent { reason } => (
                    finished,
                    cas_unsupported("probe verdict Inconsistent: "@ + reason@),
                ),
                ProbeVerdict::Supported => if conditional {
                    (AcquireView::Reading, ActionView::ReadLease)
                } else {
                    (finished, cas_unsupported("backend exposes no conditional-write API"@))
                },
            },
        ),
        (AcquireView::Reading, AcquireEvent::Lease(lease)) => Some(
            match lease {
                None => (AcquireView::FindingEpoch, ActionView::ReadHead),
                Some((epoch, etag)) => (
                    AcquireView::Waiting { epoch, etag: etag@ },
                    ActionView::Sleep,
                ),
            },
        ),
        (AcquireView::FindingEpoch, AcquireEvent::Head(head)) => Some(
            (
                AcquireView::Creating { epoch: head.epoch() },
                ActionView::Create { epoch: head.epoch() },
            ),
        ),
        (AcquireView::Creating { epoch }, AcquireEvent::Put(put)) => Some(
            match put {
                CondPut::Stored { etag: Some(etag) } => (
                    finished,
                    ActionView::Grant {
                        grant: WriterGrant { epoch: None },
                        held: HeldView {
                            etag: etag@,
                            epoch,
                            valid_until: later(now, takeover),
                        },
                    },
                ),
                CondPut::Stored { etag: None } => (
                    finished,
                    cas_unsupported(
                        "PUT returns no ETag; conditional workflows are inexpressible"@,
                    ),
                ),
                CondPut::AlreadyExists => (AcquireView::Reading, ActionView::ReadLease),
                CondPut::PreconditionFailed => (AcquireView::Reading, ActionView::ReadLease),
                CondPut::Unsupported { reason } => (finished, cas_unsupported(reason@)),
            },
        ),
        (AcquireView::Waiting { epoch, etag }, AcquireEvent::Woke) => Some(
            (AcquireView::Rechecking { epoch, etag }, ActionView::ReadLease),
        ),
        (AcquireView::Rechecking { epoch, etag }, AcquireEvent::Lease(lease)) => Some(
            if lease matches Some((_, etag2)) && etag2@ == etag {
                if epoch == u16::MAX {
                    (finished, ActionView::Refuse(ErrorView::EpochExhausted))
                } else {
                    (
                        AcquireView::Seizing { new_epoch: (epoch + 1) as u16, since: now },
                        ActionView::Seize { etag, epoch: (epoch + 1) as u16 },
                    )
                }
            } else {
                (AcquireView::Reading, ActionView::ReadLease)
            },
        ),
        (AcquireView::Seizing { new_epoch, since }, AcquireEvent::Put(put)) => Some(
            match put {
                CondPut::Stored { etag: Some(etag) } => (
                    AcquireView::FindingHead { new_epoch, etag: etag@, since },
                    ActionView::ReadHead,
                ),
                CondPut::Stored { etag: None } => (
                    finished,
                    cas_unsupported(
                        "update returns no ETag; conditional workflows are inexpressible"@,
                    ),
                ),
                CondPut::AlreadyExists => (AcquireView::Reading, ActionView::ReadLease),
                CondPut::PreconditionFailed => (AcquireView::Reading, ActionView::ReadLease),
                CondPut::Unsupported { reason } => (finished, cas_unsupported(reason@)),
            },
        ),
        (AcquireView::FindingHead { new_epoch, etag, since }, AcquireEvent::Head(head)) => Some(
            (
                AcquireView::Fencing { new_epoch, etag, since },
                ActionView::WriteFence { epoch: head.epoch(), offset: head.offset() },
            ),
        ),
        (AcquireView::Fencing { new_epoch, etag, since }, AcquireEvent::Fenced) => Some(
            (
                finished,
                ActionView::Grant {
                    grant: WriterGrant { epoch: Some(new_epoch) },
                    held: HeldView {
                        etag,
                        epoch: new_epoch,
                        valid_until: later(since, takeover),
                    },
                },
            ),
        ),
        _ => None,
    }
}

fn refuse(reason: String) -> (r: (AcquireState, AcquireAction))
    ensures
        r.0@ == AcquireView::Finished,
        r.1@ == cas_unsupported(reason@),
{
    (AcquireState::Finished, AcquireAction::Refuse(EngineError::CasUnsupported { reason }))
}

impl AcquireState {
    /// The next state and action, after `event` came back at the time `now`.
    /// `takeover` is the time after which a lease that is not renewed can be
    /// seized.
    pub fn acquire(self, event: AcquireEvent, now: u64, takeover: u64) -> (r: (
        AcquireState,
        AcquireAction,
    ))
        requires
            acquire_spec(self@, event, now, takeover) is Some,
        ensures
            acquire_spec(self@, event, now, takeover) == Some((r.0@, r.1@)),
    {
        match (self, event) {
            (AcquireState::Probing, AcquireEvent::Probed { verdict, conditional }) => match verdict {
                ProbeVerdict::Unsupported { reason } => refuse(
                    concat2("probe verdict Unsupported: ", reason.as_str()),
                ),
                ProbeVerdict::Inconsistent { reason } => refuse(
                    concat2("probe verdict Inconsistent: ", reason.as_str()),
                ),
                ProbeVerdict::Supported => if conditional {
                    (AcquireState::Reading, AcquireAction::ReadLease)
                } else {
                    refuse("backend exposes no conditional-write API".to_owned())
                },
            },
            (AcquireState::Reading, AcquireEvent::Lease(lease)) => match lease {
                None => (AcquireState::FindingEpoch, AcquireAction::ReadHead),
                Some((epoch, etag)) => (
                    AcquireState::Waiting { epoch, etag },
                    AcquireAction::Sleep,
                ),
            },
            (AcquireState::FindingEpoch, AcquireEvent::Head(head)) => {
                let epoch = head.epoch();
                (AcquireState::Creating { epoch }, AcquireAction::Create { epoch })
            },
            (AcquireState::Creating { epoch }, AcquireEvent::Put(put)) => match put {
                CondPut::Stored { etag: Some(etag) } => {
                    let valid_until: u64 = now.saturating_add(takeover);
                    (
                        AcquireState::Finished,
                        AcquireAction::Grant {
                            grant: WriterGrant { epoch: None },
                            held: HeldLease { etag, epoch, valid_until },
                        },
                    )
                },
                CondPut::Stored { etag: None } => refuse(
                    "PUT returns no ETag; conditional workflows are inexpressible".to_owned(),
                ),
                CondPut::AlreadyExists => (AcquireState::Reading, AcquireAction::ReadLease),
                CondPut::PreconditionFailed => (AcquireState::Reading, AcquireAction::ReadLease),
                CondPut::Unsupported { reason } => refuse(reason),
            },
            (AcquireState::Waiting { epoch, etag }, AcquireEvent::Woke) => (
                AcquireState::Rechecking { epoch, etag },
                AcquireAction::ReadLease,
            ),
            (AcquireState::Rechecking { epoch, etag }, AcquireEvent::Lease(lease)) => {
                let unchanged = match &lease {
                    Some((_, etag2)) => same_text(etag2, &etag),
                    None => false,
                };
                if unchanged {
                    match epoch.checked_add(1) {
                        None => (
                            AcquireState::Finished,
                            AcquireAction::Refuse(EngineError::EpochExhausted),
                        ),
                        Some(new_epoch) => (
                            AcquireState::Seizing { new_epoch, since: now },
                            AcquireAction::Seize { etag, epoch: new_epoch },
                        ),
                    }
                } else {
                    (AcquireState::Reading, AcquireAction::ReadLease)
                }
            },
            (AcquireState::Seizing { new_epoch, since }, AcquireEvent::Put(put)) => match put {
                CondPut::Stored { etag: Some(etag) } => (
                    AcquireState::FindingHead { new_epoch, etag, since },
                    AcquireAction::ReadHead,
                ),
                CondPut::Stored { etag: None } => refuse(
                    "update returns no ETag; conditional workflows are inexpressible".to_owned(),
                ),
                CondPut::AlreadyExists => (AcquireState::Reading, AcquireAction::ReadLease),
                CondPut::PreconditionFailed => (AcquireState::Reading, AcquireAction::ReadLease),
                CondPut::Unsupported { reason } => refuse(reason),
            },
            (
                AcquireState::FindingHead { new_epoch, etag, since },
                AcquireEvent::Head(head),
            ) => (
                AcquireState::Fencing { new_epoch, etag, since },
                AcquireAction::WriteFence { epoch: head.epoch(), offset: head.offset() },
            ),
            (AcquireState::Fencing { new_epoch, etag, since }, AcquireEvent::Fenced) => {
                let valid_until: u64 = since.saturating_add(takeover);
                (
                    AcquireState::Finished,
                    AcquireAction::Grant {
                        grant: WriterGrant { epoch: Some(new_epoch) },
                        held: HeldLease { etag, epoch: new_epoch, valid_until },
                    },
                )
            },
            _ => {
                assert(false);
                (AcquireState::Finished, AcquireAction::ReadLease)
            },
        }
    }
}

/// How the renewal of a lease ended.
#[derive(Debug)]
pub enum Renewal {
    /// The store answered the conditional write.
    Answered(CondPut),
    /// The write failed for another reason.
    Failed(String),
    /// The store has no conditional writes.
    NotConditional,
    /// The lease document could not be written down.
    NotEncoded(String),
}

/// The lease that is held after a renewal that was begun at `since` ended at
/// `now`, and what to publish.
pub open spec fn renewal_spec(
    held: Option<HeldView>,
    renewal: Renewal,
    since: u64,
    now: u64,
    takeover: u64,
) -> (Option<HeldView>, LeaseView) {
    match held {
        None => (None, LeaseView::Lost("no lease held"@)),
        Some(h) => match renewal {
            Renewal::NotConditional => (
                held,
                LeaseView::Lost(
                    "storage backend cannot support cas-failover: backend exposes no conditional-write API. Use [coordinator] backend = \"designated-writer\"."@,
                ),
            ),
            Renewal::NotEncoded(text) => (
                held,
                LeaseView::Lost("lease renewal failed: "@ + text@),
            ),
            Renewal::Answered(CondPut::Stored { etag: Some(etag) }) => {
                let valid_until = later(since, takeover);
                (
                    Some(HeldView { etag: etag@, epoch: h.epoch, valid_until }),
                    LeaseView::ValidUntil(valid_until),
                )
            },
            Renewal::Answered(CondPut::Stored { etag: None }) => (
                None,
                LeaseView::Lost(
                    "update returns no ETag; conditional workflows are inexpressible"@,
                ),
            ),
            Renewal::Answered(CondPut::PreconditionFailed) => (
                None,
                LeaseView::Lost("lease seized by another writer"@),
            ),
            Renewal::Answered(CondPut::AlreadyExists) => (
                None,
                LeaseView::Lost("lease seized by another writer"@),
            ),
            Renewal::Answered(CondPut::Unsupported { reason }) => (held, LeaseView::Lost(reason@)),
            Renewal::Failed(text) => if now < h.valid_until {
                (held, LeaseView::ValidUntil(h.valid_until))
            } else {
                (
                    held,
                    LeaseView::Lost(
                        "lease renewal failed past the takeover window: "@ + text@,
                    ),
                )
            },
        },
    }
}

pub open spec fn held_view(held: Option<HeldLease>) -> Option<HeldView> {
    match held {
        Some(h) => Some(h@),
        None => None,
    }
}

/// Takes the outcome of a renewal. A renewed lease ends a takeover time after
/// the renewal was begun. A failed renewal leaves the lease as long as it had.
pub fn heartbeat(
    held: Option<HeldLease>,
    renewal: Renewal,
    since: u64,
    now: u64,
    takeover: u64,
) -> (r: (Option<HeldLease>, LeaseState))
    ensures
        (held_view(r.0), r.1@) == renewal_spec(held_view(held), renewal, since, now, takeover),
{
    let h = match held {
        None => {
            return (None, LeaseState::Lost("no lease held".to_owned()));
        },
        Some(h) => h,
    };
    match renewal {
        Renewal::NotConditional => (
            Some(h),
            LeaseState::Lost(
                "storage backend cannot support cas-failover: backend exposes no conditional-write API. Use [coordinator] backend = \"designated-writer\".".to_owned(),
            ),
        ),
        Renewal::NotEncoded(text) => (
            Some(h),
            LeaseState::Lost(concat2("lease renewal failed: ", text.as_str())),
        ),
        Renewal::Answered(put) => match put {
            CondPut::Stored { etag: Some(etag) } => {
                let valid_until: u64 = since.saturating_add(takeover);
                (
                    Some(HeldLease { etag, epoch: h.epoch, valid_until }),
                    LeaseState::ValidUntil(valid_until),
                )
            },
            CondPut::Stored { etag: None } => (
                None,
                LeaseState::Lost(
                    "update returns no ETag; conditional workflows are inexpressible".to_owned(),
                ),
            ),
            CondPut::PreconditionFailed => (
                None,
                LeaseState::Lost("lease seized by another writer".to_owned()),
            ),
            CondPut::AlreadyExists => (
                None,
                LeaseState::Lost("lease seized by another writer".to_owned()),
            ),
            CondPut::Unsupported { reason } => (Some(h), LeaseState::Lost(reason)),
        },
        Renewal::Failed(text) => {
            let valid_until: u64 = h.valid_until;
            if now < valid_until {
                (Some(h), LeaseState::ValidUntil(valid_until))
            } else {
                (
                    Some(h),
                    LeaseState::Lost(
                        concat2(
                            "lease renewal failed past the takeover window: ",
                            text.as_str(),
                        ),
                    ),
                )
            }
        },
    }
}

/// A lease is granted only in answer to a conditional write that was stored, or
/// once the fence of a seized epoch is.
pub proof fn law_grants_follow_stored_writes(
    state: AcquireView,
    event: AcquireEvent,
    now: u64,
    takeover: u64,
)
    requires
        acquire_spec(state, event, now, takeover) matches Some((_, ActionView::Grant { .. })),
    ensures
        (state is Creating && event matches AcquireEvent::Put(CondPut::Stored { etag: Some(_) }))
            || (state is Fencing && event is Fenced),
{
}

/// A lease that changed while it was waited for is never seized; one that did
/// not is seized at the epoch after its own.
pub proof fn law_only_unchanged_leases_are_seized(
    epoch: u16,
    etag: Seq<char>,
    lease: Option<(u16, String)>,
    now: u64,
    takeover: u64,
)
    ensures
        ({
            let next = acquire_spec(
                AcquireView::Rechecking { epoch, etag },
                AcquireEvent::Lease(lease),
                now,
                takeover,
            );
            let unchanged = lease matches Some((_, etag2)) && etag2@ == etag;
            if unchanged && epoch < u16::MAX {
                next == Some(
                    (
                        AcquireView::Seizing { new_epoch: (epoch + 1) as u16, since: now },
                        ActionView::Seize { etag, epoch: (epoch + 1) as u16 },
                    ),
                )
            } else {
                !(next matches Some((_, ActionView::Seize { .. })))
            }
        }),
{
}

/// From a seized lease the only way to a grant is over the fence: it is written
/// at the head of the log, and the granted epoch is the seized one.
pub proof fn law_seized_epochs_are_fenced(
    new_epoch: u16,
    etag: Seq<char>,
    since: u64,
    head: LogPosition,
    now: u64,
    takeover: u64,
)
    ensures
        ({
            let found = acquire_spec(
                AcquireView::FindingHead { new_epoch, etag, since },
                AcquireEvent::Head(head),
                now,
                takeover,
            );
            let fenced = acquire_spec(
                AcquireView::Fencing { new_epoch, etag, since },
                AcquireEvent::Fenced,
                now,
                takeover,
            );
            &&& found == Some(
                (
                    AcquireView::Fencing { new_epoch, etag, since },
                    ActionView::WriteFence { epoch: head.epoch(), offset: head.offset() },
                ),
            )
            &&& fenced matches Some((AcquireView::Finished, ActionView::Grant { grant, held }))
                && grant.epoch == Some(new_epoch) && held.epoch == new_epoch
        }),
{
}

/// A renewal never lengthens a lease past a takeover time after it was begun,
/// nor, where it failed, past where it was; and a lease that another writer
/// seized is lost.
pub proof fn law_renewals_do_not_overreach(
    held: HeldView,
    renewal: Renewal,
    since: u64,
    now: u64,
    takeover: u64,
)
    ensures
        ({
            let (after, lease) = renewal_spec(Some(held), renewal, since, now, takeover);
            &&& lease matches LeaseView::ValidUntil(t) ==> t <= later(since, takeover) || t
                == held.valid_until
            &&& (renewal matches Renewal::Answered(CondPut::PreconditionFailed)) ==> after is None
                && lease is Lost
        }),
{
}

/// The advertisement of a writer that may hold the lease: with its epoch where
/// it does.
pub fn advertisement(
    address: String,
    node_id: &String,
    held: Option<&HeldLease>,
    heartbeat_us: i64,
) -> (r: WriterAdvertisement)
    ensures
        r.address == address,
        r.node_id@ == node_id@,
        r.epoch == (match held {
            Some(h) => h.epoch,
            None => 0,
        }),
        r.heartbeat_us == heartbeat_us,
{
    let epoch: u16 = match held {
        Some(h) => h.epoch,
        None => 0,
    };
    WriterAdvertisement { address, node_id: node_id.clone(), epoch, heartbeat_us }
}

} // verus!
