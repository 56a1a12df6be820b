//! Waiting until a node has applied what a caller wants to see.

use crate::error::{EngineError, ErrorView};
use crate::node::{AppliedProgress, BasisToken, ProgressState};
use vstd::prelude::*;

verus! {

pub open spec fn satisfied(basis: BasisToken, applied: AppliedProgress) -> bool {
    match basis {
        BasisToken::TxId(tx_id) => applied.tx_id >= tx_id,
        BasisToken::At(position) => applied.log_position.packed >= position.packed,
    }
}

/// Whether a node has applied as much as a caller wants to see.
pub fn basis_satisfied(basis: BasisToken, applied: AppliedProgress) -> (r: bool)
    ensures
        r == satisfied(basis, applied),
{
    match basis {
        BasisToken::TxId(tx_id) => applied.tx_id >= tx_id,
        BasisToken::At(position) => applied.log_position.packed >= position.packed,
    }
}

/// What one look at the progress decides: a failure comes before all else.
pub open spec fn observed(basis: BasisToken, current: ProgressState) -> Option<
    Result<(), ErrorView>,
> {
    match current.follower_error {
        Some(error) => Some(Err(ErrorView::FollowerFailed(error@))),
        None => if satisfied(basis, current.applied) {
            Some(Ok(()))
        } else {
            None
        },
    }
}

/// A decision is the one that contracts speak of.
pub open spec fn decides(r: Option<Result<(), EngineError>>, d: Option<Result<(), ErrorView>>) -> bool {
    match r {
        None => d is None,
        Some(Ok(())) => d == Some(Ok::<(), ErrorView>(())),
        Some(Err(e)) => d == Some(Err::<(), ErrorView>(e@)),
    }
}

/// What one look at the progress decides, if anything.
pub fn basis_result_for_observation(basis: BasisToken, current: &ProgressState) -> (r: Option<
    Result<(), EngineError>,
>)
    ensures
        decides(r, observed(basis, *current)),
{
    match &current.follower_error {
        Some(error) => Some(Err(EngineError::FollowerFailed(error.clone()))),
        None => if basis_satisfied(basis, current.applied) {
            Some(Ok(()))
        } else {
            None
        },
    }
}

/// The error of a progress channel that nothing will be sent on any more.
pub open spec fn closed_error() -> ErrorView {
    ErrorView::FollowerFailed("progress channel closed"@)
}

fn channel_closed() -> (r: EngineError)
    ensures
        r@ == closed_error(),
{
    EngineError::FollowerFailed("progress channel closed".to_owned())
}

/// What a waiting caller sees.
pub enum WaitEvent {
    /// The progress is this.
    Current(ProgressState),
    /// The progress will not change any more.
    Closed,
}

/// One step of the wait: the answer, or none where the caller waits on.
pub fn wait_for_basis(basis: BasisToken, event: WaitEvent) -> (r: Option<Result<(), EngineError>>)
    ensures
        decides(
            r,
            match event {
                WaitEvent::Current(current) => observed(basis, current),
                WaitEvent::Closed => Some(Err(closed_error())),
            },
        ),
{
    match event {
        WaitEvent::Current(current) => basis_result_for_observation(basis, &current),
        WaitEvent::Closed => Some(Err(channel_closed())),
    }
}

/// Whether more progress may come.
#[derive(Clone, Copy, Debug, PartialEq, Eq, Structural)]
pub enum BasisTimeoutChannel {
    /// Nothing has come since the look.
    Open,
    /// Something has come since.
    Pending,
    /// Nothing will come any more.
    Closed,
}

/// One look at the progress after the time was up.
pub struct BasisTimeoutObservation {
    pub current: ProgressState,
    pub channel: BasisTimeoutChannel,
}

/// What the first look after the time was up decides.
pub enum FirstLook {
    Decided(Result<(), EngineError>),
    /// Look once more.
    Again,
}

pub open spec fn timeout_error(basis: BasisToken, seen: ProgressState) -> ErrorView {
    ErrorView::BasisTimeout { requested: basis, applied: seen.applied }
}

/// What the first look decides: an answer where there is one, and a timeout
/// where nothing has come since. Otherwise a second look is due.
pub open spec fn first_look_spec(basis: BasisToken, first: BasisTimeoutObservation) -> Option<
    Result<(), ErrorView>,
> {
    match observed(basis, first.current) {
        Some(r) => Some(r),
        None => if first.channel == BasisTimeoutChannel::Open {
            Some(Err(timeout_error(basis, first.current)))
        } else {
            None
        },
    }
}

pub fn first_look(basis: BasisToken, first: &BasisTimeoutObservation) -> (r: FirstLook)
    ensures
        match r {
            FirstLook::Decided(d) => decides(Some(d), first_look_spec(basis, *first)),
            FirstLook::Again => first_look_spec(basis, *first) is None,
        },
{
    match basis_result_for_observation(basis, &first.current) {
        Some(r) => {
            return FirstLook::Decided(r);
        },
        None => {},
    }
    match first.channel {
        BasisTimeoutChannel::Open => FirstLook::Decided(
            Err(
                EngineError::BasisTimeout { requested: basis, applied: first.current.applied },
            ),
        ),
        _ => FirstLook::Again,
    }
}

/// What two looks decide. There is never a third.
pub open spec fn second_look_spec(
    basis: BasisToken,
    first: BasisTimeoutChannel,
    second: BasisTimeoutObservation,
) -> Result<(), ErrorView> {
    match observed(basis, second.current) {
        Some(r) => r,
        None => if first == BasisTimeoutChannel::Closed || second.channel
            == BasisTimeoutChannel::Closed {
            Err(closed_error())
        } else {
            Err(timeout_error(basis, second.current))
        },
    }
}

pub fn second_look(
    basis: BasisToken,
    first: BasisTimeoutChannel,
    second: &BasisTimeoutObservation,
) -> (r: Result<(), EngineError>)
    ensures
        decides(Some(r), Some(second_look_spec(basis, first, *second))),
{
    match basis_result_for_observation(basis, &second.current) {
        Some(r) => {
            return r;
        },
        None => {},
    }
    let closed = match (first, second.channel) {
        (BasisTimeoutChannel::Closed, _) => true,
        (_, BasisTimeoutChannel::Closed) => true,
        _ => false,
    };
    if closed {
        Err(channel_closed())
    } else {
        Err(EngineError::BasisTimeout { requested: basis, applied: second.current.applied })
    }
}

/// The answer once the time is up, from two looks of which the second counts
/// only where the first decides nothing.
pub fn basis_result_after_timeout_with(
    basis: BasisToken,
    first: &BasisTimeoutObservation,
    second: &BasisTimeoutObservation,
) -> (r: Result<(), EngineError>)
    ensures
        decides(
            Some(r),
            match first_look_spec(basis, *first) {
                Some(d) => Some(d),
                None => Some(second_look_spec(basis, first.channel, *second)),
            },
        ),
{
    match first_look(basis, first) {
        FirstLook::Decided(r) => r,
        FirstLook::Again => second_look(basis, first.channel, second),
    }
}

/// A node that has applied something has applied all before it.
pub proof fn law_progress_satisfies(basis: BasisToken, a: AppliedProgress, b: AppliedProgress)
    requires
        satisfied(basis, a),
        a.tx_id <= b.tx_id,
        a.log_position.packed <= b.log_position.packed,
    ensures
        satisfied(basis, b),
{
}

/// A caller is answered with success exactly where the follower has not failed
/// and has applied the transaction, or read the log up to the position, that the
/// caller wants to see. Where it has failed, its failure is the answer; otherwise
/// the caller waits on.
pub proof fn law_answers_follow_the_progress(basis: BasisToken, current: ProgressState)
    ensures
        current.follower_error matches Some(e) ==> observed(basis, current) == Some(
            Err::<(), ErrorView>(ErrorView::FollowerFailed(e@)),
        ),
        current.follower_error is None ==> (basis matches BasisToken::TxId(tx) ==> observed(
            basis,
            current,
        ) == (if current.applied.tx_id >= tx {
            Some(Ok::<(), ErrorView>(()))
        } else {
            None
        })),
        current.follower_error is None ==> (basis matches BasisToken::At(p) ==> observed(
            basis,
            current,
        ) == (if current.applied.log_position.packed >= p.packed {
            Some(Ok::<(), ErrorView>(()))
        } else {
            None
        })),
{
}

/// Once the time is up, a look that finds the wish met answers with success,
/// whatever the channel; one that finds neither that nor a failure names what was
/// asked for and how far the follower was when it was last looked at, unless the
/// channel is closed. A second look is due only where something may have come
/// since the first.
pub proof fn law_late_looks_still_count(
    basis: BasisToken,
    first: BasisTimeoutObservation,
    second: BasisTimeoutObservation,
)
    ensures
        first.current.follower_error is None && satisfied(basis, first.current.applied)
            ==> first_look_spec(basis, first) == Some(Ok::<(), ErrorView>(())),
        first.current.follower_error is None && !satisfied(basis, first.current.applied) ==> (
        first_look_spec(basis, first) is None <==> !(first.channel is Open)),
        first.current.follower_error is None && !satisfied(basis, first.current.applied)
            && first.channel is Open ==> first_look_spec(basis, first) == Some(
            Err::<(), ErrorView>(
                ErrorView::BasisTimeout { requested: basis, applied: first.current.applied },
            ),
        ),
        second_look_spec(basis, first.channel, second) is Ok
            <==> second.current.follower_error is None && satisfied(basis, second.current.applied),
        second.current.follower_error is None && !satisfied(basis, second.current.applied) && !(
        first.channel is Closed) && !(second.channel is Closed) ==> second_look_spec(
            basis,
            first.channel,
            second,
        ) == Err::<(), ErrorView>(
            ErrorView::BasisTimeout { requested: basis, applied: second.current.applied },
        ),
        second.current.follower_error is None && !satisfied(basis, second.current.applied) && (
        first.channel is Closed || second.channel is Closed) ==> (second_look_spec(
            basis,
            first.channel,
            second,
        ) matches Err(ErrorView::FollowerFailed(text)) && text == "progress channel closed"@),
{
}

} // verus!
