//! The engine's errors.

use crate::node::{AppliedProgress, BasisToken, NodeRole};
use crate::types::{Instant, LogPosition};
use vstd::prelude::*;

verus! {

/// Why a query could not be planned.
#[derive(Debug)]
pub enum PlanError {
    MissingParam(String),
    Other(String),
}

/// Why the index refused an event.
#[derive(Debug)]
pub enum IndexError {
    OutOfOrderEvent { last: Instant, got: Instant },
    Other(String),
}

/// Why an engine operation failed. Failures of the layers below (query
/// language, log, storage, configuration) are carried by the text they
/// report.
#[derive(Debug)]
pub enum EngineError {
    Gql(String),
    Plan(PlanError),
    Index(IndexError),
    Type(String),
    Log(String),
    InvalidValidRange { from: Instant, to: Instant },
    CommitFailed(String),
    WriterUnavailable,
    NotAMutation,
    NotAQuery,
    Poisoned,
    Registry(String),
    Config(String),
    UnknownTable(String),
    UnknownGraph(String),
    GraphExists(String),
    /// The graph was given twice, beside the text and in it.
    GraphConflict { field: String, use_graph: String },
    Storage(String),
    WriterAdvertisementJson(String),
    VolatileBlockStore,
    Unsupported(String),
    UnboundVariable(String),
    AlreadyBoundVariable(String),
    StillConnected(usize),
    RoleDisabled(NodeRole),
    FollowerFailed(String),
    BasisTimeout { requested: BasisToken, applied: AppliedProgress },
    LogGap { expected: LogPosition, actual: LogPosition },
    InvalidNodeConfig(String),
    EpochExhausted,
    WriterActive { address: String, age_ms: u64, takeover_after_ms: u64 },
    CasRequiresSharedLog(String),
    CasUnsupported { reason: String },
    WriterFenced(String),
    Backpressure,
    AccessDenied(String),
    Security(String),
    Corrupt(String),
}

/// What a plan error holds.
pub enum PlanErrorView {
    MissingParam(Seq<char>),
    Other(Seq<char>),
}

/// What an index error holds.
pub enum IndexErrorView {
    OutOfOrderEvent { last: Instant, got: Instant },
    Other(Seq<char>),
}

/// What an error holds.
pub enum ErrorView {
    Gql(Seq<char>),
    Plan(PlanErrorView),
    Index(IndexErrorView),
    Type(Seq<char>),
    Log(Seq<char>),
    InvalidValidRange { from: Instant, to: Instant },
    CommitFailed(Seq<char>),
    WriterUnavailable,
    NotAMutation,
    NotAQuery,
    Poisoned,
    Registry(Seq<char>),
    Config(Seq<char>),
    UnknownTable(Seq<char>),
    UnknownGraph(Seq<char>),
    GraphExists(Seq<char>),
    GraphConflict { field: Seq<char>, use_graph: Seq<char> },
    Storage(Seq<char>),
    WriterAdvertisementJson(Seq<char>),
    VolatileBlockStore,
    Unsupported(Seq<char>),
    UnboundVariable(Seq<char>),
    AlreadyBoundVariable(Seq<char>),
    StillConnected(usize),
    RoleDisabled(NodeRole),
    FollowerFailed(Seq<char>),
    BasisTimeout { requested: BasisToken, applied: AppliedProgress },
    LogGap { expected: LogPosition, actual: LogPosition },
    InvalidNodeConfig(Seq<char>),
    EpochExhausted,
    WriterActive { address: Seq<char>, age_ms: u64, takeover_after_ms: u64 },
    CasRequiresSharedLog(Seq<char>),
    CasUnsupported { reason: Seq<char> },
    WriterFenced(Seq<char>),
    Backpressure,
    AccessDenied(Seq<char>),
    Security(Seq<char>),
    Corrupt(Seq<char>),
}

impl View for PlanError {
    type V = PlanErrorView;

    open spec fn view(&self) -> PlanErrorView {
        match self {
            PlanError::MissingParam(s) => PlanErrorView::MissingParam(s@),
            PlanError::Other(s) => PlanErrorView::Other(s@),
        }
    }
}

impl View for IndexError {
    type V = IndexErrorView;

    open spec fn view(&self) -> IndexErrorView {
        match self {
            IndexError::OutOfOrderEvent { last, got } => IndexErrorView::OutOfOrderEvent {
                last: *last,
                got: *got,
            },
            IndexError::Other(s) => IndexErrorView::Other(s@),
        }
    }
}

impl View for EngineError {
    type V = ErrorView;

    open spec fn view(&self) -> ErrorView {
        match self {
            EngineError::Gql(x) => ErrorView::Gql(x@),
            EngineError::Plan(x) => ErrorView::Plan(x@),
            EngineError::Index(x) => ErrorView::Index(x@),
            EngineError::Type(x) => ErrorView::Type(x@),
            EngineError::Log(x) => ErrorView::Log(x@),
            EngineError::InvalidValidRange { from, to } => ErrorView::InvalidValidRange { from: *from, to: *to },
            EngineError::CommitFailed(x) => ErrorView::CommitFailed(x@),
            EngineError::WriterUnavailable => ErrorView::WriterUnavailable,
            EngineError::NotAMutation => ErrorView::NotAMutation,
            EngineError::NotAQuery => ErrorView::NotAQuery,
            EngineError::Poisoned => ErrorView::Poisoned,
            EngineError::Registry(x) => ErrorView::Registry(x@),
            EngineError::Config(x) => ErrorView::Config(x@),
            EngineError::UnknownTable(x) => ErrorView::UnknownTable(x@),
            EngineError::UnknownGraph(x) => ErrorView::UnknownGraph(x@),
            EngineError::GraphExists(x) => ErrorView::GraphExists(x@),
            EngineError::GraphConflict { field, use_graph } => ErrorView::GraphConflict { field: field@, use_graph: use_graph@ },
            EngineError::Storage(x) => ErrorView::Storage(x@),
            EngineError::WriterAdvertisementJson(x) => ErrorView::WriterAdvertisementJson(x@),
            EngineError::VolatileBlockStore => ErrorView::VolatileBlockStore,
            EngineError::Unsupported(x) => ErrorView::Unsupported(x@),
            EngineError::UnboundVariable(x) => ErrorView::UnboundVariable(x@),
            EngineError::AlreadyBoundVariable(x) => ErrorView::AlreadyBoundVariable(x@),
            EngineError::StillConnected(x) => ErrorView::StillConnected(*x),
            EngineError::RoleDisabled(x) => ErrorView::RoleDisabled(*x),
            EngineError::FollowerFailed(x) => ErrorView::FollowerFailed(x@),
            EngineError::BasisTimeout { requested, applied } => ErrorView::BasisTimeout { requested: *requested, applied: *applied },
            EngineError::LogGap { expected, actual } => ErrorView::LogGap { expected: *expected, actual: *actual },
            EngineError::InvalidNodeConfig(x) => ErrorView::InvalidNodeConfig(x@),
            EngineError::EpochExhausted => ErrorView::EpochExhausted,
            EngineError::WriterActive { address, age_ms, takeover_after_ms } => ErrorView::WriterActive { address: address@, age_ms: *age_ms, takeover_after_ms: *takeover_after_ms },
            EngineError::CasRequiresSharedLog(x) => ErrorView::CasRequiresSharedLog(x@),
            EngineError::CasUnsupported { reason } => ErrorView::CasUnsupported { reason: reason@ },
            EngineError::WriterFenced(x) => ErrorView::WriterFenced(x@),
            EngineError::Backpressure => ErrorView::Backpressure,
            EngineError::AccessDenied(x) => ErrorView::AccessDenied(x@),
            EngineError::Security(x) => ErrorView::Security(x@),
            EngineError::Corrupt(x) => ErrorView::Corrupt(x@),
        }
    }
}

} // verus!
