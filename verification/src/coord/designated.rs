//! The default coordinator: one writer is designated. A second one is refused
//! at its start while the first looks alive.

use super::WriterGrant;
use crate::error::{EngineError, ErrorView};
use crate::text::same_text;
use vstd::prelude::*;

verus! {

/// What a writer publishes of itself.
#[derive(Debug)]
pub struct WriterAdvertisement {
    pub address: String,
    /// The identity of the node; empty where none was given.
    pub node_id: String,
    /// The epoch of the log that the writer appends at.
    pub epoch: u16,
    /// When it was published, in microseconds.
    pub heartbeat_us: i64,
}

/// The object that holds the advertisement.
pub const WRITER_ADVERTISEMENT_KEY: &'static str = "v1/writer.json";

/// How old a heartbeat is, in microseconds; one from the future is new.
pub open spec fn heartbeat_age(now_us: i64, heartbeat_us: i64) -> int {
    if now_us > heartbeat_us {
        now_us - heartbeat_us
    } else {
        0
    }
}

/// Whether an advertisement shows another writer that is alive: it is of another
/// node, has a heartbeat, and the heartbeat is younger than the takeover time.
pub open spec fn other_is_alive(
    ad: WriterAdvertisement,
    node_id: Seq<char>,
    now_us: i64,
    takeover_after_ms: u64,
) -> bool {
    ad.node_id@ != node_id && ad.heartbeat_us > 0 && heartbeat_age(now_us, ad.heartbeat_us)
        < takeover_after_ms * 1000
}

/// Whether the writer may start. It goes on in the epoch that the log is in.
pub fn acquire(
    advertisement: &Option<WriterAdvertisement>,
    node_id: &String,
    now_us: i64,
    takeover_after_ms: u64,
) -> (r: Result<WriterGrant, EngineError>)
    ensures
        match r {
            Ok(grant) => grant.epoch is None && (advertisement matches Some(ad)
                ==> !other_is_alive(*ad, node_id@, now_us, takeover_after_ms)),
            Err(e) => advertisement matches Some(ad) && other_is_alive(
                *ad,
                node_id@,
                now_us,
                takeover_after_ms,
            ) && e@ == (ErrorView::WriterActive {
                address: ad.address@,
                age_ms: (heartbeat_age(now_us, ad.heartbeat_us) / 1000) as u64,
                takeover_after_ms,
            }),
        },
{
    match advertisement {
        Some(ad) => {
            if !same_text(&ad.node_id, node_id) && ad.heartbeat_us > 0 {
                let age_us: i64 = if now_us > ad.heartbeat_us {
                    now_us - ad.heartbeat_us
                } else {
                    0
                };
                if (age_us as u128) < (takeover_after_ms as u128) * 1000u128 {
                    return Err(
                        EngineError::WriterActive {
                            address: ad.address.clone(),
                            age_ms: (age_us / 1000) as u64,
                            takeover_after_ms,
                        },
                    );
                }
            }
        },
        None => {},
    }
    Ok(WriterGrant { epoch: None })
}

/// The advertisement of a designated writer.
pub fn advertisement(address: String, node_id: &String, heartbeat_us: i64) -> (r:
    WriterAdvertisement)
    ensures
        r.address == address,
        r.node_id@ == node_id@,
        r.epoch == 0,
        r.heartbeat_us == heartbeat_us,
{
    WriterAdvertisement { address, node_id: node_id.clone(), epoch: 0, heartbeat_us }
}

/// A writer is never refused for its own advertisement, nor for one whose
/// heartbeat is as old as the takeover time.
pub proof fn law_own_or_stale_heartbeats_never_refuse(
    ad: WriterAdvertisement,
    node_id: Seq<char>,
    now_us: i64,
    takeover_after_ms: u64,
)
    requires
        ad.node_id@ == node_id || now_us - ad.heartbeat_us >= takeover_after_ms * 1000,
        takeover_after_ms > 0,
    ensures
        !other_is_alive(ad, node_id, now_us, takeover_after_ms),
{
}

} // verus!
