//! Compaction: blocks of an inventory are merged into fewer and better sorted
//! ones.

use crate::sorted::{list_less, OrderedKey};
use crate::flush::{SortOrder, ADJ_IN, ADJ_OUT};
use crate::state::{EDGES_TABLE, NODES_TABLE};
use crate::text::views;
use crate::trie::{ScopeView, TableScope, TrieKey, TrieKeyView, LOG_LIMIT};
use vstd::prelude::*;

pub mod manifest;
pub mod merge;
pub mod route;
pub mod run;
pub mod select;

verus! {

/// When blocks are merged.
#[derive(Clone, Copy, Debug, PartialEq, Eq, Structural)]
pub struct CompactionConfig {
    /// How many new blocks are merged at a time.
    pub log_limit: usize,
    /// From which size on a block is split further.
    pub file_size_target: u64,
    /// Whether fewer new blocks are merged too.
    pub full: bool,
}

impl Default for CompactionConfig {
    fn default() -> (r: CompactionConfig)
        ensures
            r == (CompactionConfig {
                log_limit: 64,
                file_size_target: 104_857_600,
                full: false,
            }),
    {
        CompactionConfig { log_limit: LOG_LIMIT, file_size_target: 104_857_600, full: false }
    }
}

/// The two kinds of compaction.
#[derive(Clone, Copy, Debug, PartialEq, Eq, Structural)]
pub enum CompactionKind {
    /// New blocks are merged and split by how recent their rows are.
    L0ToL1Split,
    /// Large blocks of a part of the key space are split into smaller parts.
    SameShard,
}

/// Which blocks a compaction writes.
#[derive(Debug)]
pub enum CompactionOutputPlan {
    /// Some of these.
    Exact(Vec<TrieKey>),
    /// One for each recency that occurs.
    L0RecencySplit { level: u64, part: Vec<u8>, block: u64 },
}

#[verifier::ext_equal]
pub enum PlanView {
    Exact(Seq<TrieKeyView>),
    L0RecencySplit { level: u64, part: Seq<u8>, block: u64 },
}

impl View for CompactionOutputPlan {
    type V = PlanView;

    open spec fn view(&self) -> PlanView {
        match self {
            CompactionOutputPlan::Exact(keys) => PlanView::Exact(views(keys@)),
            CompactionOutputPlan::L0RecencySplit { level, part, block } => {
                PlanView::L0RecencySplit { level: *level, part: part@, block: *block }
            },
        }
    }
}

impl OrderedKey for CompactionOutputPlan {
    type Model = PlanView;

    open spec fn model(&self) -> PlanView {
        self@
    }

    open spec fn less(a: PlanView, b: PlanView) -> bool {
        match (a, b) {
            (PlanView::Exact(x), PlanView::Exact(y)) => list_less::<TrieKey>(x, y),
            (PlanView::Exact(_), PlanView::L0RecencySplit { .. }) => true,
            (PlanView::L0RecencySplit { .. }, PlanView::Exact(_)) => false,
            (
                PlanView::L0RecencySplit { level: l, part: p, block: b1 },
                PlanView::L0RecencySplit { level: m, part: q, block: b2 },
            ) => <(u64, (Vec<u8>, u64))>::less((l, (p, b1)), (m, (q, b2))),
        }
    }

    proof fn order_laws(a: PlanView, b: PlanView) {
        match (a, b) {
            (PlanView::Exact(x), PlanView::Exact(y)) => {
                <Vec<TrieKey>>::order_laws(x, y);
            },
            (
                PlanView::L0RecencySplit { level: l, part: p, block: b1 },
                PlanView::L0RecencySplit { level: m, part: q, block: b2 },
            ) => {
                <(u64, (Vec<u8>, u64))>::order_laws((l, (p, b1)), (m, (q, b2)));
            },
            (PlanView::Exact(x), _) => {
                <Vec<TrieKey>>::order_laws(x, x);
            },
            (PlanView::L0RecencySplit { level: l, part: p, block: b1 }, _) => {
                <(u64, (Vec<u8>, u64))>::order_laws((l, (p, b1)), (l, (p, b1)));
            },
        }
    }

    proof fn transitive(a: PlanView, b: PlanView, c: PlanView) {
        match (a, b, c) {
            (PlanView::Exact(x), PlanView::Exact(y), PlanView::Exact(z)) => {
                <Vec<TrieKey>>::transitive(x, y, z);
            },
            (
                PlanView::L0RecencySplit { level: l, part: p, block: b1 },
                PlanView::L0RecencySplit { level: m, part: q, block: b2 },
                PlanView::L0RecencySplit { level: n, part: r, block: b3 },
            ) => {
                <(u64, (Vec<u8>, u64))>::transitive((l, (p, b1)), (m, (q, b2)), (n, (r, b3)));
            },
            _ => {},
        }
    }

    fn before(&self, other: &Self) -> (r: bool) {
        match (self, other) {
            (CompactionOutputPlan::Exact(x), CompactionOutputPlan::Exact(y)) => {
                proof {
                    assert(x.model() =~= views(x@));
                    assert(y.model() =~= views(y@));
                }
                x.before(y)
            },
            (CompactionOutputPlan::Exact(_), CompactionOutputPlan::L0RecencySplit { .. }) => true,
            (CompactionOutputPlan::L0RecencySplit { .. }, CompactionOutputPlan::Exact(_)) => false,
            (
                CompactionOutputPlan::L0RecencySplit { level: l, part: p, block: b1 },
                CompactionOutputPlan::L0RecencySplit { level: m, part: q, block: b2 },
            ) => {
                proof {
                    assert(p.model() =~= p@);
                    assert(q.model() =~= q@);
                    <Vec<u8>>::order_laws(p@, q@);
                }
                if *l != *m {
                    *l < *m
                } else if p.before(q) {
                    true
                } else if q.before(p) {
                    false
                } else {
                    *b1 < *b2
                }
            },
        }
    }
}

/// One compaction: which blocks of an inventory go in, and which come out.
#[derive(Debug)]
pub struct CompactionJob {
    pub scope: TableScope,
    pub input_trie_keys: Vec<TrieKey>,
    pub output_plan: CompactionOutputPlan,
}

#[verifier::ext_equal]
pub struct JobView {
    pub scope: ScopeView,
    pub inputs: Seq<TrieKeyView>,
    pub plan: PlanView,
}

impl JobView {
    pub open spec fn parts(self) -> (ScopeView, (Seq<TrieKeyView>, PlanView)) {
        (self.scope, (self.inputs, self.plan))
    }
}

impl View for CompactionJob {
    type V = JobView;

    open spec fn view(&self) -> JobView {
        JobView {
            scope: self.scope@,
            inputs: views(self.input_trie_keys@),
            plan: self.output_plan@,
        }
    }
}

impl OrderedKey for CompactionJob {
    type Model = JobView;

    open spec fn model(&self) -> JobView {
        self@
    }

    /// By scope, then by what goes in, then by what comes out.
    open spec fn less(a: JobView, b: JobView) -> bool {
        <(TableScope, (Vec<TrieKey>, CompactionOutputPlan))>::less(a.parts(), b.parts())
    }

    proof fn order_laws(a: JobView, b: JobView) {
        <(TableScope, (Vec<TrieKey>, CompactionOutputPlan))>::order_laws(a.parts(), b.parts());
    }

    proof fn transitive(a: JobView, b: JobView, c: JobView) {
        <(TableScope, (Vec<TrieKey>, CompactionOutputPlan))>::transitive(
            a.parts(),
            b.parts(),
            c.parts(),
        );
    }

    fn before(&self, other: &Self) -> (r: bool) {
        proof {
            TableScope::order_laws(self.scope@, other.scope@);
            assert(self.input_trie_keys.model() =~= views(self.input_trie_keys@));
            assert(other.input_trie_keys.model() =~= views(other.input_trie_keys@));
            <Vec<TrieKey>>::order_laws(
                views(self.input_trie_keys@),
                views(other.input_trie_keys@),
            );
        }
        if self.scope.before(&other.scope) {
            true
        } else if other.scope.before(&self.scope) {
            false
        } else if self.input_trie_keys.before(&other.input_trie_keys) {
            true
        } else if other.input_trie_keys.before(&self.input_trie_keys) {
            false
        } else {
            self.output_plan.before(&other.output_plan)
        }
    }
}

/// The order of the rows in an inventory's blocks; none where the inventory is
/// not known.
pub open spec fn scope_order(scope: ScopeView) -> Option<SortOrder> {
    if scope.family == ""@ && (scope.table == NODES_TABLE@ || scope.table == EDGES_TABLE@) {
        Some(SortOrder::ByIid)
    } else if scope.table == EDGES_TABLE@ && scope.family == ADJ_OUT@ {
        Some(SortOrder::BySrc)
    } else if scope.table == EDGES_TABLE@ && scope.family == ADJ_IN@ {
        Some(SortOrder::ByDst)
    } else {
        None
    }
}

impl CompactionJob {
    pub fn kind(&self) -> (r: CompactionKind)
        ensures
            r == match self.output_plan {
                CompactionOutputPlan::Exact(_) => CompactionKind::SameShard,
                CompactionOutputPlan::L0RecencySplit { .. } => CompactionKind::L0ToL1Split,
            },
    {
        match &self.output_plan {
            CompactionOutputPlan::Exact(_) => CompactionKind::SameShard,
            CompactionOutputPlan::L0RecencySplit { .. } => CompactionKind::L0ToL1Split,
        }
    }

    /// The order of the rows that come out.
    pub fn target_sort_order(&self) -> (r: Option<SortOrder>)
        ensures
            r == scope_order(self.scope@),
    {
        if self.scope.is(NODES_TABLE, "") || self.scope.is(EDGES_TABLE, "") {
            Some(SortOrder::ByIid)
        } else if self.scope.is(EDGES_TABLE, ADJ_OUT) {
            Some(SortOrder::BySrc)
        } else if self.scope.is(EDGES_TABLE, ADJ_IN) {
            Some(SortOrder::ByDst)
        } else {
            None
        }
    }
}

/// What a compaction did.
#[derive(Clone, Copy, Debug, PartialEq, Eq, Structural)]
pub struct CompactionReport {
    pub jobs: usize,
    pub input_tries: usize,
    pub output_tries: usize,
    pub input_rows: u64,
    pub output_rows: u64,
}

impl Default for CompactionReport {
    fn default() -> (r: CompactionReport)
        ensures
            r == (CompactionReport {
                jobs: 0,
                input_tries: 0,
                output_tries: 0,
                input_rows: 0,
                output_rows: 0,
            }),
    {
        CompactionReport {
            jobs: 0,
            input_tries: 0,
            output_tries: 0,
            input_rows: 0,
            output_rows: 0,
        }
    }
}

} // verus!
