//! Coordination of writers.

use crate::text::{concat4, decimal, decimal_text};
use vstd::prelude::*;
use vstd::string::StringExecFns;

pub mod cas;
pub mod designated;
pub mod fence;
pub mod identity;

verus! {

/// What a writer was granted at its start.
#[derive(Clone, Copy, Debug, PartialEq, Eq, Structural)]
pub struct WriterGrant {
    /// The epoch to append at; none means the epoch that the log is in.
    pub epoch: Option<u16>,
}

/// Whether a writer may acknowledge. Deadlines are readings of a clock that
/// never turns back.
#[derive(Debug)]
pub enum LeaseState {
    /// There is nothing to lose.
    Unfenced,
    /// The writer may acknowledge before this time.
    ValidUntil(u64),
    /// The lease is gone for good.
    Lost(String),
}

pub enum LeaseView {
    Unfenced,
    ValidUntil(u64),
    Lost(Seq<char>),
}

impl View for LeaseState {
    type V = LeaseView;

    open spec fn view(&self) -> LeaseView {
        match self {
            LeaseState::Unfenced => LeaseView::Unfenced,
            LeaseState::ValidUntil(t) => LeaseView::ValidUntil(*t),
            LeaseState::Lost(s) => LeaseView::Lost(s@),
        }
    }
}

/// Why acknowledgements must stop at `now`, if they must.
pub open spec fn lease_block_spec(lease: LeaseView, now: u64) -> Option<Seq<char>> {
    match lease {
        LeaseView::Unfenced => None,
        LeaseView::ValidUntil(deadline) => if now < deadline {
            None
        } else {
            Some("lease expired before ack"@)
        },
        LeaseView::Lost(reason) => Some(reason),
    }
}

/// Why acknowledgements must stop at `now`, if they must.
pub fn lease_block(lease: &LeaseState, now: u64) -> (r: Option<String>)
    ensures
        match r {
            Some(reason) => lease_block_spec(lease@, now) == Some(reason@),
            None => lease_block_spec(lease@, now) is None,
        },
{
    match lease {
        LeaseState::Unfenced => None,
        LeaseState::ValidUntil(deadline) => if now < *deadline {
            None
        } else {
            Some("lease expired before ack".to_owned())
        },
        LeaseState::Lost(reason) => Some(reason.clone()),
    }
}

/// Whether the heartbeat goes on after a beat left the lease in this state.
pub fn heartbeat_continues(lease: &LeaseState) -> (r: bool)
    ensures
        r == !(lease@ is Lost),
{
    match lease {
        LeaseState::Lost(_) => false,
        _ => true,
    }
}

pub fn default_heartbeat_interval_ms() -> (r: u64)
    ensures
        r == 5000,
{
    5000
}

pub fn default_takeover_after_ms() -> (r: u64)
    ensures
        r == 15000,
{
    15000
}

/// The tuning of the coordinators.
#[derive(Clone, Copy, Debug)]
pub struct CoordTuning {
    pub heartbeat_interval_ms: u64,
    pub takeover_after_ms: u64,
}

impl CoordTuning {
    /// A takeover must leave time for two heartbeats, where there are any.
    pub open spec fn sound(self) -> bool {
        self.heartbeat_interval_ms > 0 ==> self.takeover_after_ms >= 2 * self.heartbeat_interval_ms
    }

    /// The heartbeat interval and the takeover time, where they are sound.
    pub fn validate(self) -> (r: Result<(u64, u64), String>)
        ensures
            match r {
                Ok(pair) => self.sound() && pair == (
                    self.heartbeat_interval_ms,
                    self.takeover_after_ms,
                ),
                Err(text) => !self.sound() && text@ == "takeover_after_ms ("@ + decimal(
                    self.takeover_after_ms as nat,
                ) + ") must be at least 2x heartbeat_interval_ms ("@ + decimal(
                    self.heartbeat_interval_ms as nat,
                ) + ")"@,
            },
    {
        if self.heartbeat_interval_ms > 0 && (self.takeover_after_ms as u128) < 2u128 * (
        self.heartbeat_interval_ms as u128) {
            let mut text = concat4(
                "takeover_after_ms (",
                decimal_text(self.takeover_after_ms).as_str(),
                ") must be at least 2x heartbeat_interval_ms (",
                decimal_text(self.heartbeat_interval_ms).as_str(),
            );
            text.append(")");
            return Err(text);
        }
        Ok((self.heartbeat_interval_ms, self.takeover_after_ms))
    }
}

} // verus!
