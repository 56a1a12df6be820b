//! Verified core of the Varve engine.
//!
//! The storage, log and query-planning layers are reached by the embedding
//! program; this crate holds the rules that decide what they are asked to do
//! and what their answers mean.

use vstd::prelude::*;

pub mod assign;
pub mod ast;
pub mod basis;
pub mod batch;
pub mod bindings;
pub mod calendar;
pub mod clock;
pub mod commit;
pub mod compact;
pub mod const_eval;
pub mod coord;
pub mod ddl;
pub mod delete;
pub mod doc;
pub mod durable;
pub mod effects;
pub mod error;
pub mod event;
pub mod flush;
pub mod fold;
pub mod follower;
pub mod gc;
pub mod ingest;
pub mod insert;
pub mod keys;
pub mod lazy_scan;
pub mod match_body;
pub mod merge_scan;
pub mod metrics;
pub mod names;
pub mod node;
pub mod open;
pub mod overlay;
pub mod page_cache;
pub mod policy_rows;
pub mod program;
pub mod query;
pub mod reach;
pub mod recover;
pub mod replay;
pub mod scan;
pub mod security;
pub mod sorted;
pub mod sources;
pub mod stable;
pub mod state;
pub mod step;
pub mod text;
pub mod trie;
pub mod tuning;
pub mod types;
pub mod update;
pub mod verify;
pub mod visible;

verus! {

} // verus!
