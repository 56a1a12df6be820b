//! Roles of a node and its progress.

use crate::effects::TxReceipt;
use crate::types::LogPosition;
use vstd::prelude::*;

verus! {

/// What a node does.
#[derive(Clone, Copy, Debug, PartialEq, Eq, PartialOrd, Ord, Structural)]
pub enum NodeRole {
    Writer,
    Query,
    Compactor,
}

/// The roles of a node.
#[derive(Clone, Copy, Debug, PartialEq, Eq, Structural)]
pub struct NodeRoles {
    writer: bool,
    query: bool,
    compactor: bool,
}

impl View for NodeRoles {
    type V = Set<NodeRole>;

    closed spec fn view(&self) -> Set<NodeRole> {
        Set::new(
            |r: NodeRole|
                match r {
                    NodeRole::Writer => self.writer,
                    NodeRole::Query => self.query,
                    NodeRole::Compactor => self.compactor,
                },
        )
    }
}

/// The roles of a set in order.
pub open spec fn roles_in_order(s: Set<NodeRole>) -> Seq<NodeRole> {
    let w = if s.contains(NodeRole::Writer) {
        seq![NodeRole::Writer]
    } else {
        Seq::empty()
    };
    let q = if s.contains(NodeRole::Query) {
        seq![NodeRole::Query]
    } else {
        Seq::empty()
    };
    let c = if s.contains(NodeRole::Compactor) {
        seq![NodeRole::Compactor]
    } else {
        Seq::empty()
    };
    w + q + c
}

impl NodeRoles {
    /// Every role.
    pub fn all() -> (r: NodeRoles)
        ensures
            forall|x: NodeRole| r@.contains(x),
    {
        NodeRoles { writer: true, query: true, compactor: true }
    }

    /// The roles of a list.
    pub fn of(list: &Vec<NodeRole>) -> (r: NodeRoles)
        ensures
            r@ == list@.to_set(),
    {
        let mut r = NodeRoles { writer: false, query: false, compactor: false };
        let mut i: usize = 0;
        while i < list.len()
            invariant
                i <= list.len(),
                forall|x: NodeRole|
                    r@.contains(x) <==> exists|k: int| 0 <= k < i && #[trigger] list@[k] == x,
            decreases list.len() - i,
        {
            let ghost before = r@;
            match list[i] {
                NodeRole::Writer => {
                    r.writer = true;
                },
                NodeRole::Query => {
                    r.query = true;
                },
                NodeRole::Compactor => {
                    r.compactor = true;
                },
            }
            proof {
                let here = list@[i as int];
                assert(r@ =~= before.insert(here));
                assert forall|x: NodeRole|
                    r@.contains(x) <==> exists|k: int| 0 <= k < i + 1 && #[trigger] list@[k] == x by {
                    if before.contains(x) {
                        let k = choose|k: int| 0 <= k < i && #[trigger] list@[k] == x;
                        assert(0 <= k < i + 1 && list@[k] == x);
                    }
                    if x == here {
                        assert(list@[i as int] == x);
                    }
                }
            }
            i += 1;
        }
        assert(r@ =~= list@.to_set());
        r
    }

    pub fn is_empty(&self) -> (r: bool)
        ensures
            r == (self@ == Set::<NodeRole>::empty()),
    {
        let r = !self.writer && !self.query && !self.compactor;
        proof {
            if r {
                assert(self@ =~= Set::<NodeRole>::empty());
            } else {
                assert(self@.contains(NodeRole::Writer) || self@.contains(NodeRole::Query)
                    || self@.contains(NodeRole::Compactor));
            }
        }
        r
    }

    /// Whether the node has a role.
    pub fn contains(&self, role: NodeRole) -> (r: bool)
        ensures
            r == self@.contains(role),
    {
        match role {
            NodeRole::Writer => self.writer,
            NodeRole::Query => self.query,
            NodeRole::Compactor => self.compactor,
        }
    }

    /// The roles in order.
    pub fn iter(&self) -> (r: Vec<NodeRole>)
        ensures
            r@ == roles_in_order(self@),
    {
        let mut r: Vec<NodeRole> = Vec::new();
        if self.writer {
            r.push(NodeRole::Writer);
        }
        if self.query {
            r.push(NodeRole::Query);
        }
        if self.compactor {
            r.push(NodeRole::Compactor);
        }
        assert(r@ =~= roles_in_order(self@));
        r
    }
}

/// How far a node has applied the log.
#[derive(Clone, Copy, Debug, PartialEq, Eq, Structural)]
pub struct AppliedProgress {
    pub tx_id: u64,
    pub log_position: LogPosition,
}

/// What a query waits for: a transaction, or a position in the log.
#[derive(Clone, Copy, Debug, PartialEq, Eq, Structural)]
pub enum BasisToken {
    TxId(u64),
    At(LogPosition),
}

impl From<TxReceipt> for BasisToken {
    fn from(receipt: TxReceipt) -> (r: BasisToken) {
        BasisToken::TxId(receipt.tx_id)
    }
}

impl vstd::std_specs::convert::FromSpecImpl<TxReceipt> for BasisToken {
    open spec fn obeys_from_spec() -> bool {
        true
    }

    open spec fn from_spec(receipt: TxReceipt) -> BasisToken {
        BasisToken::TxId(receipt.tx_id)
    }
}

impl From<LogPosition> for BasisToken {
    fn from(position: LogPosition) -> (r: BasisToken) {
        BasisToken::At(position)
    }
}

impl vstd::std_specs::convert::FromSpecImpl<LogPosition> for BasisToken {
    open spec fn obeys_from_spec() -> bool {
        true
    }

    open spec fn from_spec(position: LogPosition) -> BasisToken {
        BasisToken::At(position)
    }
}

/// The status of a node.
#[derive(Clone, Debug)]
pub struct NodeStatus {
    pub roles: NodeRoles,
    pub applied: AppliedProgress,
    pub manifest_block_id: Option<u64>,
    pub manifest_watermark: LogPosition,
    pub log_head: LogPosition,
    pub follower_error: Option<String>,
}

impl NodeStatus {
    /// The status that follows from the published progress and the latest
    /// manifest's block and watermark.
    pub fn of(roles: NodeRoles, progress: ProgressState, manifest: Option<(u64, u64)>) -> (r:
        NodeStatus)
        ensures
            r.roles == roles,
            r.applied == progress.applied,
            r.log_head == progress.log_head,
            r.follower_error == progress.follower_error,
            match manifest {
                Some((block, watermark)) => r.manifest_block_id == Some(block)
                    && r.manifest_watermark.packed == watermark,
                None => r.manifest_block_id is None && r.manifest_watermark == LogPosition::zero(),
            },
    {
        let (block, watermark) = match manifest {
            Some((block, watermark)) => (Some(block), LogPosition::from_u64(watermark)),
            None => (None, LogPosition::zero()),
        };
        NodeStatus {
            roles,
            applied: progress.applied,
            manifest_block_id: block,
            manifest_watermark: watermark,
            log_head: progress.log_head,
            follower_error: progress.follower_error,
        }
    }
}

/// The progress that a node publishes.
#[derive(Clone, Debug)]
pub struct ProgressState {
    pub applied: AppliedProgress,
    pub log_head: LogPosition,
    pub follower_error: Option<String>,
}

impl ProgressState {
    /// The progress of a node that runs.
    pub fn running(tx_id: u64, log_position: LogPosition, log_head: LogPosition) -> (r:
        ProgressState)
        ensures
            r.applied == (AppliedProgress { tx_id, log_position }),
            r.log_head == log_head,
            r.follower_error is None,
    {
        ProgressState {
            applied: AppliedProgress { tx_id, log_position },
            log_head,
            follower_error: None,
        }
    }

    pub fn clone_progress(&self) -> (r: ProgressState)
        ensures
            r == *self,
    {
        ProgressState {
            applied: self.applied,
            log_head: self.log_head,
            follower_error: match &self.follower_error {
                Some(e) => Some(e.clone()),
                None => None,
            },
        }
    }
}

/// How many records lie between what is applied and the head of the log. In
/// the same epoch it is the difference of the offsets; where the head is in
/// another epoch, the records of the head's epoch up to and with the head.
pub fn log_lag_records(applied: LogPosition, head: LogPosition) -> (r: u64)
    ensures
        r == (if applied.epoch() == head.epoch() {
            if head.offset() >= applied.offset() {
                head.offset() - applied.offset()
            } else {
                0
            }
        } else {
            head.offset() + 1
        }),
{
    if applied.epoch() == head.epoch() {
        head.offset().saturating_sub(applied.offset())
    } else {
        head.offset() + 1
    }
}

/// The `[node]` section.
#[derive(Debug)]
pub struct NodeTuning {
    pub roles: Vec<NodeRole>,
    pub tail_poll_interval_ms: u64,
    pub tail_batch_records: u64,
    pub basis_timeout_ms: u64,
    pub submission_queue_len: usize,
}

/// Why a `[node]` section is refused.
pub open spec fn tuning_fault(t: NodeTuning) -> Option<Seq<char>> {
    let roles = t.roles@.to_set();
    if roles == Set::<NodeRole>::empty() {
        Some("[node] roles must not be empty"@)
    } else if t.tail_batch_records == 0 {
        Some("[node] tail_batch_records must be greater than zero"@)
    } else if roles.contains(NodeRole::Compactor) && !roles.contains(NodeRole::Writer) {
        Some("[node] compactor role requires writer role"@)
    } else if t.submission_queue_len == 0 {
        Some("[node] submission_queue_len must be greater than zero"@)
    } else {
        None
    }
}

impl NodeTuning {
    /// The roles and the section, where nothing speaks against it.
    pub fn validate(self) -> (r: Result<(NodeRoles, NodeTuning), String>)
        ensures
            match r {
                Ok((roles, tuning)) => tuning_fault(self) is None && tuning == self && roles@
                    == self.roles@.to_set(),
                Err(text) => tuning_fault(self) == Some(text@),
            },
    {
        let roles = NodeRoles::of(&self.roles);
        if roles.is_empty() {
            return Err("[node] roles must not be empty".to_owned());
        }
        if self.tail_batch_records == 0 {
            return Err("[node] tail_batch_records must be greater than zero".to_owned());
        }
        if roles.contains(NodeRole::Compactor) && !roles.contains(NodeRole::Writer) {
            return Err("[node] compactor role requires writer role".to_owned());
        }
        if self.submission_queue_len == 0 {
            return Err("[node] submission_queue_len must be greater than zero".to_owned());
        }
        Ok((roles, self))
    }
}

/// The roles of a node that names none: all of them.
pub fn default_roles() -> (r: Vec<NodeRole>)
    ensures
        r@ == seq![NodeRole::Writer, NodeRole::Query, NodeRole::Compactor],
{
    let r = NodeRoles::all().iter();
    assert(r@ =~= seq![NodeRole::Writer, NodeRole::Query, NodeRole::Compactor]);
    r
}

pub const DEFAULT_TAIL_POLL_INTERVAL_MS: u64 = 50;

pub const DEFAULT_TAIL_BATCH_RECORDS: u64 = 1024;

pub const DEFAULT_BASIS_TIMEOUT_MS: u64 = 5000;

pub fn default_tail_poll_interval_ms() -> (r: u64)
    ensures
        r == 50,
{
    DEFAULT_TAIL_POLL_INTERVAL_MS
}

pub fn default_tail_batch_records() -> (r: u64)
    ensures
        r == 1024,
{
    DEFAULT_TAIL_BATCH_RECORDS
}

pub fn default_basis_timeout_ms() -> (r: u64)
    ensures
        r == 5000,
{
    DEFAULT_BASIS_TIMEOUT_MS
}

pub fn default_submission_queue_len() -> (r: usize)
    ensures
        r == 256,
{
    256
}

} // verus!
