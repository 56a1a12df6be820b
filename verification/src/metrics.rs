//! Counters of the engine.

use crate::error::EngineError;
use crate::fold::{fold, lemma_fold_all, lemma_fold_step};
use crate::sorted::{lemma_map_keys_sorted, lemma_sorted_domain, sorted_seq};
use crate::state::{wrapped, GraphsState, TableView};
use vstd::prelude::*;

verus! {

/// What the writer counts. The counts wrap around.
#[derive(Clone, Copy, Debug, PartialEq, Eq, Structural)]
pub struct EngineMetrics {
    pub txs_committed: u64,
    pub events_committed: u64,
    /// Batches that the log refused.
    pub commit_failures: u64,
    pub flush_blocks: u64,
    pub flush_failures: u64,
    pub compaction_runs: u64,
    pub backpressure_rejections: u64,
}

impl EngineMetrics {
    pub fn new() -> (r: EngineMetrics)
        ensures
            r == (EngineMetrics {
                txs_committed: 0,
                events_committed: 0,
                commit_failures: 0,
                flush_blocks: 0,
                flush_failures: 0,
                compaction_runs: 0,
                backpressure_rejections: 0,
            }),
    {
        EngineMetrics {
            txs_committed: 0,
            events_committed: 0,
            commit_failures: 0,
            flush_blocks: 0,
            flush_failures: 0,
            compaction_runs: 0,
            backpressure_rejections: 0,
        }
    }
}

/// Counts a command that the queue did not take; only where it was full.
pub fn count_rejection(metrics: &mut EngineMetrics, error: &EngineError)
    ensures
        *final(metrics) == (if error@ is Backpressure {
            EngineMetrics {
                backpressure_rejections: wrapped(
                    old(metrics).backpressure_rejections as int,
                    1,
                ),
                ..*old(metrics)
            }
        } else {
            *old(metrics)
        }),
{
    match error {
        EngineError::Backpressure => {
            metrics.backpressure_rejections = metrics.backpressure_rejections.wrapping_add(1);
        },
        _ => {},
    }
}

/// The hits and misses of one cache tier.
#[derive(Clone, Debug)]
pub struct CacheTierStats {
    pub tier: String,
    pub hits: u64,
    pub misses: u64,
}

/// The counters and the sizes of what is in memory, at one instant.
#[derive(Clone, Debug)]
pub struct EngineMetricsSnapshot {
    pub txs_committed: u64,
    pub events_committed: u64,
    pub commit_failures: u64,
    pub flush_blocks: u64,
    pub flush_failures: u64,
    pub compaction_runs: u64,
    pub backpressure_rejections: u64,
    pub live_rows: u64,
    pub live_bytes: u64,
    pub persisted_tries: u64,
    /// The blocks that a full compaction would save: in each inventory all but
    /// one.
    pub compaction_debt_tries: u64,
    pub cache_tiers: Vec<CacheTierStats>,
}

/// The four inventories of a graph, in number of blocks.
pub open spec fn inventory_sizes(t: TableView) -> Seq<int> {
    seq![
        t.nodes.tries.len() as int,
        t.edges.tries.len() as int,
        t.adj_out.len() as int,
        t.adj_in.len() as int,
    ]
}

/// The blocks of an inventory beyond the first.
pub open spec fn debt(size: int) -> int {
    if size > 0 {
        size - 1
    } else {
        0
    }
}

/// The blocks, and the debt, of a graph, added to those before.
pub open spec fn add_inventories(acc: (u64, u64), t: TableView) -> (u64, u64) {
    fold(
        inventory_sizes(t),
        acc,
        |a: (u64, u64), size: int| (wrapped(a.0 as int, size), wrapped(a.1 as int, debt(size))),
    )
}

/// The blocks, and the debt, of all graphs.
pub open spec fn inventory_totals(tables: Map<Seq<char>, TableView>) -> (u64, u64) {
    fold(
        sorted_seq::<String>(tables.dom()),
        (0u64, 0u64),
        |a: (u64, u64), g: Seq<char>| add_inventories(a, tables[g]),
    )
}

fn add_size(acc: (u64, u64), size: usize) -> (r: (u64, u64))
    ensures
        r == (wrapped(acc.0 as int, size as int), wrapped(acc.1 as int, debt(size as int))),
{
    let rest: usize = size.saturating_sub(1);
    (acc.0.wrapping_add(size as u64), acc.1.wrapping_add(rest as u64))
}

/// The blocks, and the debt, of all graphs.
pub fn count_inventories(state: &GraphsState) -> (r: (u64, u64))
    requires
        state.wf(),
    ensures
        r == inventory_totals(state@.graphs),
{
    let n = state.graphs.len();
    let ghost keys = state.graphs.keys();
    let ghost gs = state@.graphs;
    let ghost step = |a: (u64, u64), g: Seq<char>| add_inventories(a, gs[g]);
    let mut acc: (u64, u64) = (0, 0);
    let mut i: usize = 0;
    proof {
        lemma_sorted_domain(state.graphs);
        lemma_map_keys_sorted(state.graphs);
        assert(gs.dom() =~= state.graphs@.dom());
        lemma_fold_all(keys, (0u64, 0u64), step);
    }
    while i < n
        invariant
            i <= n,
            n == keys.len(),
            keys == state.graphs.keys(),
            gs == state@.graphs,
            forall|k: int|
                0 <= k < keys.len() ==> state.graphs@.dom().contains(#[trigger] keys[k])
                    && state.graphs@[keys[k]] == state.graphs.values()[k],
            step == (|a: (u64, u64), g: Seq<char>| add_inventories(a, gs[g])),
            acc == fold(keys.subrange(0, i as int), (0u64, 0u64), step),
        decreases n - i,
    {
        let t = state.graphs.value_at(i);
        proof {
            lemma_fold_step(keys, (0u64, 0u64), step, i as int);
            assert(state.graphs@.dom().contains(keys[i as int]));
            assert(gs[keys[i as int]] == t@);
            let sizes = inventory_sizes(t@);
            let add = |a: (u64, u64), size: int|
                (wrapped(a.0 as int, size), wrapped(a.1 as int, debt(size)));
            lemma_fold_all(sizes, acc, add);
            lemma_fold_step(sizes, acc, add, 0);
            lemma_fold_step(sizes, acc, add, 1);
            lemma_fold_step(sizes, acc, add, 2);
            lemma_fold_step(sizes, acc, add, 3);
        }
        acc = add_size(acc, t.nodes.tries.len());
        acc = add_size(acc, t.edges.tries.len());
        acc = add_size(acc, t.adj_out.len());
        acc = add_size(acc, t.adj_in.len());
        i += 1;
    }
    proof {
        lemma_fold_all(keys, (0u64, 0u64), step);
    }
    acc
}

/// The metrics of the engine. `live_bytes` is the index's own estimate of the
/// unflushed events' size, and `cache_tiers` are the caches' own counts.
pub fn snapshot(
    metrics: EngineMetrics,
    state: &GraphsState,
    live_bytes: u64,
    cache_tiers: Vec<CacheTierStats>,
) -> (r: EngineMetricsSnapshot)
    requires
        state.wf(),
    ensures
        r.txs_committed == metrics.txs_committed,
        r.events_committed == metrics.events_committed,
        r.commit_failures == metrics.commit_failures,
        r.flush_blocks == metrics.flush_blocks,
        r.flush_failures == metrics.flush_failures,
        r.compaction_runs == metrics.compaction_runs,
        r.backpressure_rejections == metrics.backpressure_rejections,
        r.live_rows == crate::state::rows_of(
            sorted_seq::<String>(state@.graphs.dom()),
            state@.graphs,
        ),
        r.live_bytes == live_bytes,
        (r.persisted_tries, r.compaction_debt_tries) == inventory_totals(state@.graphs),
        r.cache_tiers == cache_tiers,
{
    let (persisted_tries, compaction_debt_tries) = count_inventories(state);
    EngineMetricsSnapshot {
        txs_committed: metrics.txs_committed,
        events_committed: metrics.events_committed,
        commit_failures: metrics.commit_failures,
        flush_blocks: metrics.flush_blocks,
        flush_failures: metrics.flush_failures,
        compaction_runs: metrics.compaction_runs,
        backpressure_rejections: metrics.backpressure_rejections,
        live_rows: state.live_rows() as u64,
        live_bytes,
        persisted_tries,
        compaction_debt_tries,
        cache_tiers,
    }
}

} // verus!
