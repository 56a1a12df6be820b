//! One compaction from the choice of its blocks to the state that lists what
//! came out.

use super::manifest::{commit_compaction, compacted_manifest, compacted_tables, state_compacted};
use super::select::{due_jobs, select_compaction_jobs, Catalog};
use super::{scope_order, CompactionConfig, CompactionJob, CompactionReport};
use crate::commit::WriterCore;
use crate::error::{EngineError, ErrorView};
use crate::flush::{count_rows, row_sum, BlockManifest, SortOrder};
use crate::fold::{fold, lemma_fold_all, lemma_fold_step};
use crate::metrics::EngineMetrics;
use crate::sorted::sorted_seq;
use crate::state::{wrapped, PageMeta, PersistedTrie, TrieEntry};
use crate::text::{concat3, views};
use crate::trie::{ScopeView, TrieKeyView};
use vstd::prelude::*;

verus! {

/// The newest manifest: of the highest number, and of those the last.
pub open spec fn is_latest(history: Seq<BlockManifest>, i: int) -> bool {
    &&& 0 <= i < history.len()
    &&& forall|k: int|
        0 <= k < i ==> (#[trigger] history[k]).block_id <= history[i].block_id
    &&& forall|k: int|
        i < k < history.len() ==> (#[trigger] history[k]).block_id < history[i].block_id
}

/// The place of the newest manifest.
pub fn latest_of(history: &Vec<BlockManifest>) -> (r: Option<usize>)
    ensures
        match r {
            Some(i) => is_latest(history@, i as int),
            None => history@.len() == 0,
        },
{
    if history.len() == 0 {
        return None;
    }
    let mut at: usize = 0;
    let mut i: usize = 1;
    while i < history.len()
        invariant
            1 <= i <= history.len(),
            at < i,
            forall|k: int|
                0 <= k < at ==> (#[trigger] history@[k]).block_id <= history@[at as int].block_id,
            forall|k: int|
                at < k < i ==> (#[trigger] history@[k]).block_id < history@[at as int].block_id,
        decreases history.len() - i,
    {
        if history[i].block_id >= history[at].block_id {
            at = i;
        }
        i += 1;
    }
    Some(at)
}

/// The compaction that is run: the first of those that are due.
pub fn plan_compaction(cat: &Catalog, full: bool) -> (r: Option<CompactionJob>)
    requires
        cat.wf(),
        forall|k: (ScopeView, TrieKeyView)| #[trigger]
            cat@.dom().contains(k) ==> k.1.level < u64::MAX,
    ensures
        ({
            let cfg = CompactionConfig { log_limit: 64, file_size_target: 104_857_600, full };
            let jobs = sorted_seq::<CompactionJob>(due_jobs(cat@, cfg));
            match r {
                Some(job) => jobs.len() > 0 && job@ == jobs[0],
                None => jobs.len() == 0,
            }
        }),
{
    let mut cfg = CompactionConfig::default();
    cfg.full = full;
    let jobs = select_compaction_jobs(cat, &cfg);
    let ghost all = jobs@;
    let n: usize = jobs.len();
    assert(views(all).len() == n);
    for job in it: jobs
        invariant
            it.seq() == all,
            it.index() == 0,
            n == all.len(),
            cfg == (CompactionConfig { log_limit: 64, file_size_target: 104_857_600, full }),
            views(all) == sorted_seq::<CompactionJob>(due_jobs(cat@, cfg)),
    {
        assert(all[0] == job);
        assert(views(all)[0] == job@);
        return Some(job);
    }
    None
}

/// The order of the rows that come out of a job, where its inventory is known.
pub fn job_order(job: &CompactionJob) -> (r: Result<SortOrder, EngineError>)
    ensures
        match r {
            Ok(order) => scope_order(job.scope@) == Some(order),
            Err(e) => scope_order(job.scope@) is None && e@ == ErrorView::UnknownTable(
                job.scope.table@ + "/"@ + job.scope.family@,
            ),
        },
{
    match job.target_sort_order() {
        Some(order) => Ok(order),
        None => Err(
            EngineError::UnknownTable(
                concat3(job.scope.table.as_str(), "/", job.scope.family.as_str()),
            ),
        ),
    }
}

/// A block that came out of a compaction.
pub struct CompactedBlock {
    pub trie_key: String,
    pub data: Vec<u8>,
    pub meta: Vec<u8>,
    pub pages: Vec<PageMeta>,
}

/// The manifest entry of a block that came out.
pub open spec fn output_entry(b: CompactedBlock) -> TrieEntry {
    TrieEntry {
        trie_key: b.trie_key,
        row_count: row_sum(b.pages@),
        data_len: b.data@.len() as u64,
    }
}

pub open spec fn output_entries(blocks: Seq<CompactedBlock>) -> Seq<TrieEntry> {
    blocks.map_values(|b: CompactedBlock| output_entry(b))
}

/// The blocks that came out, as the state lists them.
pub open spec fn output_tries(blocks: Seq<CompactedBlock>) -> Seq<PersistedTrie> {
    blocks.map_values(
        |b: CompactedBlock|
            PersistedTrie {
                entry: output_entry(b),
                pages: b.pages,
                labels: None,
                keys: None,
                props: None,
            },
    )
}

fn make_entry(b: &CompactedBlock) -> (r: TrieEntry)
    ensures
        r == output_entry(*b),
{
    TrieEntry {
        trie_key: b.trie_key.clone(),
        row_count: count_rows(&b.pages),
        data_len: b.data.len() as u64,
    }
}

fn make_entries(blocks: &Vec<CompactedBlock>) -> (r: Vec<TrieEntry>)
    ensures
        r@ == output_entries(blocks@),
{
    let mut r: Vec<TrieEntry> = Vec::new();
    let mut i: usize = 0;
    while i < blocks.len()
        invariant
            i <= blocks.len(),
            r@.len() == i,
            forall|k: int| 0 <= k < i ==> #[trigger] r@[k] == output_entry(blocks@[k]),
        decreases blocks.len() - i,
    {
        r.push(make_entry(&blocks[i]));
        i += 1;
    }
    assert(r@ =~= output_entries(blocks@));
    r
}

fn make_tries(blocks: Vec<CompactedBlock>) -> (r: Vec<PersistedTrie>)
    ensures
        r@ == output_tries(blocks@),
{
    let ghost all = blocks@;
    let mut r: Vec<PersistedTrie> = Vec::new();
    for b in it: blocks
        invariant
            it.seq() == all,
            r@ == output_tries(all).subrange(0, it.index() as int),
    {
        assert(all[it.index() as int] == b);
        let entry = make_entry(&b);
        r.push(PersistedTrie { entry, pages: b.pages, labels: None, keys: None, props: None });
        assert(r@ =~= output_tries(all).subrange(0, it.index() as int + 1));
    }
    assert(r@ =~= output_tries(all));
    r
}

/// The rows of some entries, in number; the count wraps around.
pub open spec fn entry_rows(entries: Seq<TrieEntry>) -> u64 {
    fold(entries, 0u64, |n: u64, e: TrieEntry| wrapped(n as int, e.row_count as int))
}

fn count_entry_rows(entries: &Vec<TrieEntry>) -> (r: u64)
    ensures
        r == entry_rows(entries@),
{
    let ghost step = |n: u64, e: TrieEntry| wrapped(n as int, e.row_count as int);
    let mut n: u64 = 0;
    let mut i: usize = 0;
    proof {
        lemma_fold_all(entries@, 0u64, step);
    }
    while i < entries.len()
        invariant
            i <= entries.len(),
            step == (|n: u64, e: TrieEntry| wrapped(n as int, e.row_count as int)),
            n == fold(entries@.subrange(0, i as int), 0u64, step),
        decreases entries.len() - i,
    {
        proof {
            lemma_fold_step(entries@, 0u64, step, i as int);
        }
        n = n.wrapping_add(entries[i].row_count);
        i += 1;
    }
    proof {
        lemma_fold_all(entries@, 0u64, step);
    }
    n
}

/// Where a compaction stands.
#[derive(Clone, Copy, Debug, PartialEq, Eq, Structural)]
pub enum CompactPhase {
    /// The data of this block is being stored.
    PuttingData(usize),
    /// The page index of this block is being stored.
    PuttingMeta(usize),
    PuttingManifest,
    Over,
}

/// What a compaction does next.
pub enum CompactAction {
    PutData(usize),
    PutMeta(usize),
    PutManifest(BlockManifest),
    Done(CompactionReport),
    Failed(EngineError),
}

/// A compaction in progress.
pub struct CompactRun {
    pub job: CompactionJob,
    pub latest: BlockManifest,
    /// The names of the blocks that went in.
    pub input_names: Vec<String>,
    pub input_rows: u64,
    pub outputs: Vec<CompactedBlock>,
    pub generation: u64,
    pub phase: CompactPhase,
}

impl CompactRun {
    pub open spec fn wf(&self) -> bool {
        match self.phase {
            CompactPhase::PuttingData(i) => i < self.outputs@.len(),
            CompactPhase::PuttingMeta(i) => i < self.outputs@.len(),
            _ => true,
        }
    }

    pub open spec fn same_but_phase(&self, other: CompactRun) -> bool {
        self.job == other.job && self.latest == other.latest && self.input_names
            == other.input_names && self.input_rows == other.input_rows && self.outputs
            == other.outputs && self.generation == other.generation
    }

    /// The manifest that the compaction stores.
    pub open spec fn is_manifest(&self, m: BlockManifest) -> bool {
        &&& m.block_id == self.generation
        &&& m.watermark == self.latest.watermark
        &&& m.max_tx_id == self.latest.max_tx_id
        &&& m.max_system_time_us == self.latest.max_system_time_us
        &&& compacted_tables(
            views(self.latest.tables@),
            self.job.scope@,
            views(self.input_names@),
            output_entries(self.outputs@),
            views(m.tables@),
        )
    }

    /// The compaction goes on to a block, or to the manifest after the last.
    pub open spec fn moves_to(&self, i: int, action: CompactAction) -> bool {
        if i < self.outputs@.len() {
            self.phase == CompactPhase::PuttingData(i as usize) && action
                == CompactAction::PutData(i as usize)
        } else {
            self.phase == CompactPhase::PuttingManifest && (
            action matches CompactAction::PutManifest(m) && self.is_manifest(m))
        }
    }

    fn move_to(&mut self, i: usize) -> (r: CompactAction)
        requires
            i <= old(self).outputs@.len(),
        ensures
            final(self).wf(),
            final(self).same_but_phase(*old(self)),
            final(self).moves_to(i as int, r),
    {
        if i < self.outputs.len() {
            self.phase = CompactPhase::PuttingData(i);
            CompactAction::PutData(i)
        } else {
            self.phase = CompactPhase::PuttingManifest;
            let entries = make_entries(&self.outputs);
            CompactAction::PutManifest(
                compacted_manifest(
                    &self.latest,
                    self.generation,
                    &self.job.scope,
                    &self.input_names,
                    entries,
                ),
            )
        }
    }

    /// Begins to store what came out. A block without pages is dropped before.
    pub fn start(
        job: CompactionJob,
        latest: BlockManifest,
        input_names: Vec<String>,
        input_rows: u64,
        outputs: Vec<CompactedBlock>,
        generation: u64,
    ) -> (r: (CompactRun, CompactAction))
        ensures
            r.0.wf(),
            r.0.job == job,
            r.0.latest == latest,
            r.0.input_names == input_names,
            r.0.input_rows == input_rows,
            r.0.outputs@ == outputs@.filter(|b: CompactedBlock| b.pages@.len() > 0),
            r.0.generation == generation,
            r.0.moves_to(0, r.1),
    {
        let ghost all = outputs@;
        let ghost pred = |b: CompactedBlock| b.pages@.len() > 0;
        let mut kept: Vec<CompactedBlock> = Vec::new();
        proof {
            reveal(Seq::filter);
            assert(all.subrange(0, 0) =~= Seq::<CompactedBlock>::empty());
        }
        for b in it: outputs
            invariant
                it.seq() == all,
                pred == (|b: CompactedBlock| b.pages@.len() > 0),
                kept@ == all.subrange(0, it.index() as int).filter(pred),
        {
            let ghost i = it.index() as int;
            proof {
                reveal(Seq::filter);
                assert(all.subrange(0, i + 1).drop_last() =~= all.subrange(0, i));
                assert(all[i] == b);
            }
            if b.pages.len() > 0 {
                kept.push(b);
            }
        }
        assert(all.subrange(0, all.len() as int) =~= all);
        let mut run = CompactRun {
            job,
            latest,
            input_names,
            input_rows,
            outputs: kept,
            generation,
            phase: CompactPhase::Over,
        };
        let action = run.move_to(0);
        (run, action)
    }

    /// The report of a compaction that succeeded.
    pub open spec fn report(&self) -> CompactionReport {
        CompactionReport {
            jobs: 1,
            input_tries: self.job.input_trie_keys@.len() as usize,
            output_tries: self.outputs@.len() as usize,
            input_rows: self.input_rows,
            output_rows: entry_rows(output_entries(self.outputs@)),
        }
    }

    /// Takes in how the last action went. Until the manifest is stored nothing
    /// changes; a failure before leaves all as it was. Once it is stored its
    /// number is used up, and the state lists what came out.
    pub fn step(&mut self, core: &mut WriterCore, outcome: Result<(), EngineError>) -> (r:
        CompactAction)
        requires
            old(self).wf(),
            old(core).state.wf(),
            old(self).phase != CompactPhase::Over,
            old(core).next_block_id < u64::MAX,
        ensures
            final(self).wf(),
            final(core).state.wf(),
            final(core).next_tx_id == old(core).next_tx_id,
            final(core).durable_watermark == old(core).durable_watermark,
            final(core).progress == old(core).progress,
            !(old(self).phase == CompactPhase::PuttingManifest && outcome is Ok)
                ==> final(self).same_but_phase(*old(self)) && *final(core) == *old(core),
            match outcome {
                Err(e) => final(self).phase == CompactPhase::Over && r == CompactAction::Failed(e),
                Ok(()) => match old(self).phase {
                    CompactPhase::PuttingData(i) => final(self).phase
                        == CompactPhase::PuttingMeta(i) && r == CompactAction::PutMeta(i),
                    CompactPhase::PuttingMeta(i) => final(self).moves_to(i + 1, r),
                    _ => {
                        &&& final(self).phase == CompactPhase::Over
                        &&& final(core).next_block_id == old(core).next_block_id + 1
                        &&& match state_compacted(
                            old(core).state@,
                            old(self).job.scope@,
                            views(old(self).input_names@),
                            output_tries(old(self).outputs@),
                        ) {
                            Ok(s) => {
                                &&& final(core).state@ == s
                                &&& final(core).metrics == (EngineMetrics {
                                    compaction_runs: wrapped(
                                        old(core).metrics.compaction_runs as int,
                                        1,
                                    ),
                                    ..old(core).metrics
                                })
                                &&& r == CompactAction::Done(old(self).report())
                            },
                            Err(e) => {
                                &&& final(core).state@ == old(core).state@
                                &&& final(core).metrics == old(core).metrics
                                &&& (r matches CompactAction::Failed(err) && err@ == e)
                            },
                        }
                    },
                },
            },
    {
        match outcome {
            Err(e) => {
                self.phase = CompactPhase::Over;
                return CompactAction::Failed(e);
            },
            Ok(()) => {},
        }
        match self.phase {
            CompactPhase::PuttingData(i) => {
                self.phase = CompactPhase::PuttingMeta(i);
                CompactAction::PutMeta(i)
            },
            CompactPhase::PuttingMeta(i) => {
                let total: usize = self.outputs.len();
                assert(i < total);
                self.move_to(i + 1)
            },
            _ => {
                let entries = make_entries(&self.outputs);
                let report = CompactionReport {
                    jobs: 1,
                    input_tries: self.job.input_trie_keys.len(),
                    output_tries: self.outputs.len(),
                    input_rows: self.input_rows,
                    output_rows: count_entry_rows(&entries),
                };
                core.next_block_id = core.next_block_id + 1;
                let mut outputs: Vec<CompactedBlock> = Vec::new();
                std::mem::swap(&mut outputs, &mut self.outputs);
                let tries = make_tries(outputs);
                self.phase = CompactPhase::Over;
                match commit_compaction(
                    &mut core.state,
                    &self.job.scope,
                    &self.input_names,
                    tries,
                ) {
                    Ok(()) => {
                        core.metrics.compaction_runs =
                            core.metrics.compaction_runs.wrapping_add(1);
                        CompactAction::Done(report)
                    },
                    Err(e) => CompactAction::Failed(e),
                }
            },
        }
    }
}

} // verus!
