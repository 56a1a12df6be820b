//! What the configuration can tune, and what holds where it says nothing.

use crate::batch::WriterConfig;
use crate::gc::GcConfig;
use vstd::prelude::*;

verus! {

/// How long a batch of commits stays open, in milliseconds.
pub const DEFAULT_GROUP_COMMIT_WINDOW_MS: u64 = 15;

/// The number of rows at which a block is written.
pub const DEFAULT_MAX_BLOCK_ROWS: usize = 100_000;

/// The number of blocks that collection always keeps.
pub const DEFAULT_GC_BLOCKS_TO_KEEP: u64 = 10;

pub fn default_window_ms() -> (r: u64)
    ensures
        r == 15,
{
    DEFAULT_GROUP_COMMIT_WINDOW_MS
}

pub fn default_group_commit_max_bytes() -> (r: usize)
    ensures
        r == 8 * 1024 * 1024,
{
    8_388_608
}

pub fn default_max_block_rows() -> (r: usize)
    ensures
        r == 100_000,
{
    DEFAULT_MAX_BLOCK_ROWS
}

pub fn default_max_live_bytes() -> (r: usize)
    ensures
        r == 512 * 1024 * 1024,
{
    536_870_912
}

pub fn default_flush_interval_ms() -> (r: u64)
    ensures
        r == 300_000,
{
    300_000
}

pub fn default_max_path_depth() -> (r: u32)
    ensures
        r == 10,
{
    10
}

pub fn default_path_output_batch_rows() -> (r: usize)
    ensures
        r == 8_192,
{
    8_192
}

pub fn default_path_row_budget() -> (r: usize)
    ensures
        r == 100_000,
{
    100_000
}

pub fn default_path_frontier_budget() -> (r: usize)
    ensures
        r == 100_000,
{
    100_000
}

pub fn default_traversal_node_budget() -> (r: usize)
    ensures
        r == 100_000,
{
    100_000
}

pub fn default_traversal_adjacency_budget() -> (r: usize)
    ensures
        r == 250_000,
{
    250_000
}

pub fn default_gc_blocks_to_keep() -> (r: u64)
    ensures
        r == 10,
{
    DEFAULT_GC_BLOCKS_TO_KEEP
}

pub fn default_gc_garbage_lifetime_hours() -> (r: i64)
    ensures
        r == 24,
{
    24
}

/// The caches in front of the store, outermost first.
pub fn default_cache_tiers() -> (r: Vec<String>)
    ensures
        r@.len() == 1,
        r@[0]@ == "memory"@,
{
    let mut r: Vec<String> = Vec::new();
    r.push("memory".to_owned());
    r
}

/// How commits are grouped.
#[derive(Clone, Copy, Debug, PartialEq, Eq, Structural)]
pub struct LogTuning {
    pub group_commit_window_ms: u64,
    pub group_commit_max_bytes: usize,
}

impl Default for LogTuning {
    fn default() -> (r: LogTuning)
        ensures
            r == (LogTuning { group_commit_window_ms: 15, group_commit_max_bytes: 8_388_608 }),
    {
        LogTuning {
            group_commit_window_ms: default_window_ms(),
            group_commit_max_bytes: default_group_commit_max_bytes(),
        }
    }
}

/// When blocks are written.
#[derive(Clone, Copy, Debug, PartialEq, Eq, Structural)]
pub struct StorageTuning {
    pub max_block_rows: usize,
    pub max_live_bytes: usize,
    pub flush_interval_ms: u64,
}

impl Default for StorageTuning {
    fn default() -> (r: StorageTuning)
        ensures
            r == (StorageTuning {
                max_block_rows: 100_000,
                max_live_bytes: 536_870_912,
                flush_interval_ms: 300_000,
            }),
    {
        StorageTuning {
            max_block_rows: default_max_block_rows(),
            max_live_bytes: default_max_live_bytes(),
            flush_interval_ms: default_flush_interval_ms(),
        }
    }
}

/// The writer's configuration.
pub fn writer_config(log: LogTuning, storage: StorageTuning, queue_len: usize) -> (r: WriterConfig)
    ensures
        r == (WriterConfig {
            window_ms: log.group_commit_window_ms,
            max_bytes: log.group_commit_max_bytes,
            max_block_rows: storage.max_block_rows,
            max_live_bytes: storage.max_live_bytes,
            flush_interval_ms: storage.flush_interval_ms,
            queue_len,
        }),
{
    WriterConfig {
        window_ms: log.group_commit_window_ms,
        max_bytes: log.group_commit_max_bytes,
        max_block_rows: storage.max_block_rows,
        max_live_bytes: storage.max_live_bytes,
        flush_interval_ms: storage.flush_interval_ms,
        queue_len,
    }
}

/// How far a query may go.
#[derive(Clone, Copy, Debug, PartialEq, Eq, Structural)]
pub struct QueryTuning {
    pub max_path_depth: u32,
    pub path_output_batch_rows: usize,
    pub path_row_budget: usize,
    pub path_frontier_budget: usize,
    pub traversal_node_budget: usize,
    pub traversal_adjacency_budget: usize,
}

impl Default for QueryTuning {
    fn default() -> (r: QueryTuning)
        ensures
            r == (QueryTuning {
                max_path_depth: 10,
                path_output_batch_rows: 8_192,
                path_row_budget: 100_000,
                path_frontier_budget: 100_000,
                traversal_node_budget: 100_000,
                traversal_adjacency_budget: 250_000,
            }),
    {
        QueryTuning {
            max_path_depth: default_max_path_depth(),
            path_output_batch_rows: default_path_output_batch_rows(),
            path_row_budget: default_path_row_budget(),
            path_frontier_budget: default_path_frontier_budget(),
            traversal_node_budget: default_traversal_node_budget(),
            traversal_adjacency_budget: default_traversal_adjacency_budget(),
        }
    }
}

/// How far the expansion of a path may go.
#[derive(Clone, Copy, Debug, PartialEq, Eq, Structural)]
pub struct PathExpandLimits {
    pub row_budget: usize,
    pub frontier_budget: usize,
    pub max_depth: u32,
}

/// The limits of a query.
#[derive(Clone, Copy, Debug, PartialEq, Eq, Structural)]
pub struct QueryLimits {
    pub path_output_batch_rows: usize,
    pub path_expand: PathExpandLimits,
    pub traversal_node_budget: usize,
    pub traversal_adjacency_budget: usize,
}

impl QueryTuning {
    pub fn limits(&self) -> (r: QueryLimits)
        ensures
            r == (QueryLimits {
                path_output_batch_rows: self.path_output_batch_rows,
                path_expand: PathExpandLimits {
                    row_budget: self.path_row_budget,
                    frontier_budget: self.path_frontier_budget,
                    max_depth: self.max_path_depth,
                },
                traversal_node_budget: self.traversal_node_budget,
                traversal_adjacency_budget: self.traversal_adjacency_budget,
            }),
    {
        QueryLimits {
            path_output_batch_rows: self.path_output_batch_rows,
            path_expand: PathExpandLimits {
                row_budget: self.path_row_budget,
                frontier_budget: self.path_frontier_budget,
                max_depth: self.max_path_depth,
            },
            traversal_node_budget: self.traversal_node_budget,
            traversal_adjacency_budget: self.traversal_adjacency_budget,
        }
    }
}

/// What collection keeps.
#[derive(Clone, Copy, Debug, PartialEq, Eq, Structural)]
pub struct GcTuning {
    pub enabled: bool,
    pub blocks_to_keep: u64,
    pub garbage_lifetime_hours: i64,
}

impl Default for GcTuning {
    fn default() -> (r: GcTuning)
        ensures
            r == (GcTuning { enabled: false, blocks_to_keep: 10, garbage_lifetime_hours: 24 }),
    {
        GcTuning {
            enabled: false,
            blocks_to_keep: default_gc_blocks_to_keep(),
            garbage_lifetime_hours: default_gc_garbage_lifetime_hours(),
        }
    }
}

/// The microseconds of an hour.
pub const HOUR_US: i64 = 3_600_000_000;

/// A number of hours in microseconds, at most and at least what an `i64`
/// holds.
pub open spec fn hours_us(hours: int) -> int {
    let us = hours * 3_600_000_000;
    if us > i64::MAX {
        i64::MAX as int
    } else if us < i64::MIN {
        i64::MIN as int
    } else {
        us
    }
}

impl GcTuning {
    pub fn into_config(self) -> (r: GcConfig)
        ensures
            r == (GcConfig {
                enabled: self.enabled,
                blocks_to_keep: self.blocks_to_keep,
                garbage_lifetime_us: hours_us(self.garbage_lifetime_hours as int) as i64,
            }),
    {
        GcConfig {
            enabled: self.enabled,
            blocks_to_keep: self.blocks_to_keep,
            garbage_lifetime_us: match self.garbage_lifetime_hours.checked_mul(HOUR_US) {
                Some(us) => us,
                None => if self.garbage_lifetime_hours > 0 {
                    i64::MAX
                } else {
                    i64::MIN
                },
            },
        }
    }
}

} // verus!
