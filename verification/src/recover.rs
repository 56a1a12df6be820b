//! What a node knows when it starts: the persisted blocks of the latest
//! manifest, and what the log holds behind it.

use crate::compact::manifest::{
    find_slot, slot_of, unknown_scope, unknown_scope_error, with_inventory,
};
use crate::coord::fence::{after_fence, live_at, FenceMap};
use crate::error::{EngineError, ErrorView};
use crate::event::{events_wf, Event};
use crate::flush::{
    entries, graph_tables, inventory, is_manifest, law_manifest_lists_the_state, seal_of,
    slot_tables, table_committed, tables_upto, tries_after, BlockManifest, FlushJob, GraphEncoded,
    GraphSeal, Slot, TableTriesView,
};
use crate::fold::{
    fold, lemma_fold_all, lemma_fold_step, lemma_try_fold_all, lemma_try_fold_fails,
    lemma_try_fold_step, try_fold,
};
use crate::follower::{follow_all, follow_step, position_after, records_wf, FollowView};
use crate::replay::{
    apply_catalog_event, apply_decoded_log_record, apply_record, catalog_step, decode_effects,
    decode_log_record, raw_wf, RawLogRecord,
};
use crate::state::{
    reserved_kept, GraphsState, PersistedTrie, StateView, TableState, TableView, TrieEntry,
    META_GRAPH,
};
use crate::text::views;
use crate::trie::{ScopeView, TableScope};
use crate::types::{Instant, LogPosition, EPOCH_SPAN};
use vstd::prelude::*;

verus! {

/// An inventory of the manifest whose page indexes were read.
pub struct RestoredTable {
    pub scope: TableScope,
    pub tries: Vec<PersistedTrie>,
}

#[verifier::ext_equal]
pub struct RestoredView {
    pub scope: ScopeView,
    pub tries: Seq<PersistedTrie>,
}

impl View for RestoredTable {
    type V = RestoredView;

    open spec fn view(&self) -> RestoredView {
        RestoredView { scope: self.scope@, tries: self.tries@ }
    }
}

/// The state with one more inventory. A graph that is not there is made.
pub open spec fn restore_step(s: StateView, t: RestoredTable) -> Result<StateView, ErrorView> {
    let scope = t.scope@;
    match slot_of(scope) {
        None => Err(unknown_scope(scope)),
        Some(slot) => {
            let table = if s.graphs.dom().contains(scope.graph) {
                s.graphs[scope.graph]
            } else {
                TableView::empty()
            };
            Ok(
                StateView {
                    graphs: s.graphs.insert(
                        scope.graph,
                        with_inventory(table, slot, inventory(table, slot) + t.tries@),
                    ),
                    ..s
                },
            )
        },
    }
}

/// What a node knows when it starts.
pub struct Recovery {
    pub state: GraphsState,
    pub next_tx_id: u64,
    pub next_block_id: u64,
    pub watermark: LogPosition,
    /// Where the next record of the log must stand.
    pub expected: LogPosition,
    pub max_system: Option<Instant>,
}

#[verifier::ext_equal]
pub struct RecoveryView {
    pub graphs: StateView,
    pub next_tx_id: u64,
    pub next_block_id: u64,
    pub watermark: LogPosition,
    pub expected: LogPosition,
    pub max_system: Option<Instant>,
}

impl View for Recovery {
    type V = RecoveryView;

    open spec fn view(&self) -> RecoveryView {
        RecoveryView {
            graphs: self.state@,
            next_tx_id: self.next_tx_id,
            next_block_id: self.next_block_id,
            watermark: self.watermark,
            expected: self.expected,
            max_system: self.max_system,
        }
    }
}

/// What the manifest alone says: the log may no longer hold it.
pub open spec fn recovery_start(manifest: Option<BlockManifest>) -> RecoveryView {
    match manifest {
        None => RecoveryView {
            graphs: StateView::initial(),
            next_tx_id: 0,
            next_block_id: 0,
            watermark: LogPosition { packed: 0 },
            expected: LogPosition { packed: 0 },
            max_system: None,
        },
        Some(m) => RecoveryView {
            graphs: StateView::initial(),
            next_tx_id: m.max_tx_id,
            next_block_id: (m.block_id + 1) as u64,
            watermark: LogPosition { packed: m.watermark },
            expected: LogPosition { packed: m.watermark },
            max_system: Some(Instant { us: m.max_system_time_us }),
        },
    }
}

/// The later of two positions.
pub open spec fn later(a: LogPosition, b: LogPosition) -> LogPosition {
    if b.packed > a.packed {
        b
    } else {
        a
    }
}

/// The latest time with one more.
pub open spec fn latest_with(a: Option<Instant>, b: i64) -> Option<Instant> {
    match a {
        Some(t) => if b > t.us {
            Some(Instant { us: b })
        } else {
            Some(t)
        },
        None => Some(Instant { us: b }),
    }
}

/// What is known after one more record of the log. A dead record is passed over
/// with all of its epoch; a live one must stand where it is expected.
pub open spec fn recovery_step(
    fences: Map<u16, u64>,
    v: RecoveryView,
    r: (LogPosition, RawLogRecord),
) -> Result<RecoveryView, ErrorView> {
    if !live_at(fences, r.0) {
        if r.0.epoch() == u16::MAX {
            Err(ErrorView::EpochExhausted)
        } else {
            Ok(
                RecoveryView {
                    watermark: later(v.watermark, after_fence(r.0)),
                    expected: later(v.expected, after_fence(r.0)),
                    ..v
                },
            )
        }
    } else if r.0 != v.expected {
        Err(ErrorView::LogGap { expected: v.expected, actual: r.0 })
    } else {
        match decode_effects(r.1.effects@) {
            Err(e) => Err(e),
            Ok(effects) => match apply_record(v.graphs, effects) {
                Err(e) => Err(e),
                Ok(graphs) => match position_after(r.0) {
                    Err(e) => Err(e),
                    Ok(next) => Ok(
                        RecoveryView {
                            graphs,
                            next_tx_id: if r.1.tx_id > v.next_tx_id {
                                r.1.tx_id
                            } else {
                                v.next_tx_id
                            },
                            next_block_id: v.next_block_id,
                            watermark: later(v.watermark, next),
                            expected: next,
                            max_system: latest_with(v.max_system, r.1.system_time_us),
                        },
                    ),
                },
            },
        }
    }
}

/// What is known after the rest of the log.
pub open spec fn recovered(
    fences: Map<u16, u64>,
    v: RecoveryView,
    records: Seq<(LogPosition, RawLogRecord)>,
) -> Result<RecoveryView, ErrorView> {
    try_fold(
        records,
        v,
        |v: RecoveryView, r: (LogPosition, RawLogRecord)| recovery_step(fences, v, r),
    )
}

fn later_of(a: LogPosition, b: LogPosition) -> (r: LogPosition)
    ensures
        r == later(a, b),
{
    if b.packed > a.packed {
        b
    } else {
        a
    }
}

fn add_tries(table: &mut TableState, slot: Slot, tries: Vec<PersistedTrie>)
    requires
        old(table).wf(),
    ensures
        final(table).wf(),
        final(table)@ == with_inventory(
            old(table)@,
            slot,
            inventory(old(table)@, slot) + tries@,
        ),
{
    let mut tries = tries;
    match slot {
        Slot::Nodes => {
            table.nodes.tries.append(&mut tries);
        },
        Slot::Edges => {
            table.edges.tries.append(&mut tries);
        },
        Slot::AdjOut => {
            table.adj_out.append(&mut tries);
        },
        Slot::AdjIn => {
            table.adj_in.append(&mut tries);
        },
    }
}

/// Whether an inventory of a manifest is known: the page indexes of its blocks
/// are read only where it is.
pub fn check_inventory(scope: &TableScope) -> (r: Result<(), EngineError>)
    ensures
        match r {
            Ok(()) => slot_of(scope@) is Some,
            Err(e) => slot_of(scope@) is None && e@ == unknown_scope(scope@),
        },
{
    match find_slot(scope) {
        Some(_) => Ok(()),
        None => Err(unknown_scope_error(scope)),
    }
}

fn restore_table(state: &mut GraphsState, t: RestoredTable) -> (r: Result<(), EngineError>)
    requires
        old(state).wf(),
    ensures
        final(state).wf(),
        match r {
            Ok(()) => restore_step(old(state)@, t) == Ok::<StateView, ErrorView>(final(state)@),
            Err(e) => restore_step(old(state)@, t) == Err::<StateView, ErrorView>(e@)
                && final(state)@ == old(state)@,
        },
{
    let ghost before = state@;
    let ghost map0 = state.graphs@;
    let ghost t0 = t;
    let slot = match find_slot(&t.scope) {
        Some(slot) => slot,
        None => {
            return Err(unknown_scope_error(&t.scope));
        },
    };
    let mut table = match state.graphs.remove(&t.scope.graph) {
        Some(table) => table,
        None => TableState::new(),
    };
    let ghost table0 = table@;
    assert(table0 == (if before.graphs.dom().contains(t.scope.graph@) {
        before.graphs[t.scope.graph@]
    } else {
        TableView::empty()
    }));
    let ghost rest = state.graphs@;
    add_tries(&mut table, slot, t.tries);
    let ghost whole = table;
    state.graphs.insert(t.scope.graph, table);
    proof {
        let g = t0.scope.graph@;
        assert(state.graphs@ =~= map0.insert(g, whole));
        assert(state@.graphs =~= before.graphs.insert(g, whole@));
        assert forall|x: Seq<char>| #[trigger]
            state.graphs@.dom().contains(x) implies state.graphs@[x].wf() by {
            if x != g {
                assert(map0.dom().contains(x));
            }
        }
        assert(state@.catalog =~= before.catalog);
        assert(reserved_kept(state@));
    }
    Ok(())
}

impl Recovery {
    pub open spec fn wf(&self) -> bool {
        self.state.wf()
    }

    /// Begins with what the manifest says.
    pub fn start(manifest: Option<&BlockManifest>) -> (r: Recovery)
        requires
            manifest matches Some(m) ==> m.block_id < u64::MAX,
        ensures
            r.wf(),
            r@ == recovery_start(
                match manifest {
                    Some(m) => Some(*m),
                    None => None,
                },
            ),
    {
        match manifest {
            None => Recovery {
                state: GraphsState::new(),
                next_tx_id: 0,
                next_block_id: 0,
                watermark: LogPosition { packed: 0 },
                expected: LogPosition { packed: 0 },
                max_system: None,
            },
            Some(m) => Recovery {
                state: GraphsState::new(),
                next_tx_id: m.max_tx_id,
                next_block_id: m.block_id + 1,
                watermark: LogPosition { packed: m.watermark },
                expected: LogPosition { packed: m.watermark },
                max_system: Some(Instant { us: m.max_system_time_us }),
            },
        }
    }

    /// Lists the blocks of the manifest.
    pub fn restore(&mut self, tables: Vec<RestoredTable>) -> (r: Result<(), EngineError>)
        requires
            old(self).wf(),
        ensures
            final(self).wf(),
            match try_fold(
                tables@,
                old(self).state@,
                |s: StateView, t: RestoredTable| restore_step(s, t),
            ) {
                Ok(s) => r is Ok && final(self)@ == (RecoveryView { graphs: s, ..old(self)@ }),
                Err(e) => r matches Err(err) && err@ == e,
            },
    {
        let ghost all = tables@;
        let ghost start = self.state@;
        let ghost step = |s: StateView, t: RestoredTable| restore_step(s, t);
        proof {
            lemma_try_fold_all(all, start, step);
        }
        for table in it: tables
            invariant
                it.seq() == all,
                all == tables@,
                self.wf(),
                start == old(self).state@,
                self@ == (RecoveryView { graphs: self.state@, ..old(self)@ }),
                step == (|s: StateView, t: RestoredTable| restore_step(s, t)),
                try_fold(all.subrange(0, it.index() as int), start, step) == Ok::<
                    StateView,
                    ErrorView,
                >(self.state@),
        {
            let ghost i = it.index() as int;
            proof {
                assert(all[i] == table);
                lemma_try_fold_step(all, start, step, i);
                if try_fold(all.subrange(0, i + 1), start, step) is Err {
                    lemma_try_fold_fails(all, start, step, i + 1);
                }
            }
            match restore_table(&mut self.state, table) {
                Ok(()) => {},
                Err(e) => {
                    return Err(e);
                },
            }
        }
        proof {
            lemma_try_fold_all(all, start, step);
        }
        Ok(())
    }

    /// The blocks of the catalog of graphs, by their places: their events name
    /// the graphs that there are.
    pub fn catalog_blocks(&self) -> (r: usize)
        requires
            self.wf(),
        ensures
            r == self.state@.graphs[META_GRAPH@].nodes.tries.len(),
    {
        match self.state.graph(META_GRAPH) {
            Some(meta) => meta.nodes.tries.len(),
            None => {
                assert(false);
                0
            },
        }
    }

    /// Takes in the events of the catalog's blocks, in the order of the blocks.
    pub fn apply_persisted_catalog_entries(&mut self, events: &Vec<Event>)
        requires
            old(self).wf(),
            events_wf(events@),
        ensures
            final(self).wf(),
            final(self)@ == (RecoveryView {
                graphs: fold(
                    events@,
                    old(self).state@,
                    |s: StateView, e: Event| catalog_step(s, e),
                ),
                ..old(self)@
            }),
    {
        let ghost start = self.state@;
        let ghost step = |s: StateView, e: Event| catalog_step(s, e);
        proof {
            lemma_fold_all(events@, start, step);
        }
        let mut i: usize = 0;
        while i < events.len()
            invariant
                i <= events.len(),
                self.wf(),
                events_wf(events@),
                self@ == (RecoveryView { graphs: self.state@, ..old(self)@ }),
                step == (|s: StateView, e: Event| catalog_step(s, e)),
                self.state@ == fold(events@.subrange(0, i as int), start, step),
            decreases events.len() - i,
        {
            proof {
                lemma_fold_step(events@, start, step, i as int);
            }
            apply_catalog_event(&mut self.state, &events[i]);
            i += 1;
        }
        proof {
            lemma_fold_all(events@, start, step);
        }
    }

    fn replay_record(
        &mut self,
        fences: &FenceMap,
        position: LogPosition,
        record: RawLogRecord,
    ) -> (r: Result<(), EngineError>)
        requires
            old(self).wf(),
            fences.wf(),
            raw_wf(record.effects@),
        ensures
            final(self).wf(),
            match recovery_step(fences@, old(self)@, (position, record)) {
                Ok(v) => r is Ok && final(self)@ == v,
                Err(e) => r matches Err(err) && err@ == e,
            },
    {
            if !fences.is_live(position) {
                match fences.jump(position) {
                    Err(e) => {
                        return Err(e);
                    },
                    Ok(Some(resume)) => {
                        self.watermark = later_of(self.watermark, resume);
                        self.expected = later_of(self.expected, resume);
                    },
                    Ok(None) => {},
                }
                return Ok(());
            }
            if position.packed != self.expected.packed {
                return Err(EngineError::LogGap { expected: self.expected, actual: position });
            }
            let tx_id: u64 = record.tx_id;
            let system_us: i64 = record.system_time_us;
            let decoded = match decode_log_record(record) {
                Ok(decoded) => decoded,
                Err(e) => {
                    return Err(e);
                },
            };
            match apply_decoded_log_record(&mut self.state, decoded) {
                Ok(()) => {},
                Err(e) => {
                    return Err(e);
                },
            }
            let next = match position.advance(1) {
                Ok(next) => next,
                Err(e) => {
                    return Err(e);
                },
            };
            if tx_id > self.next_tx_id {
                self.next_tx_id = tx_id;
            }
            self.max_system = match self.max_system {
                Some(t) => if system_us > t.us {
                    Some(Instant { us: system_us })
                } else {
                    Some(t)
                },
                None => Some(Instant { us: system_us }),
            };
            self.watermark = later_of(self.watermark, next);
            self.expected = next;
        Ok(())
    }

    /// Takes in what the log holds behind the manifest.
    pub fn replay(&mut self, fences: &FenceMap, records: Vec<(LogPosition, RawLogRecord)>) -> (r:
        Result<(), EngineError>)
        requires
            old(self).wf(),
            fences.wf(),
            records_wf(records@),
        ensures
            final(self).wf(),
            match recovered(fences@, old(self)@, records@) {
                Ok(v) => r is Ok && final(self)@ == v,
                Err(e) => r matches Err(err) && err@ == e,
            },
    {
        let ghost all = records@;
        let ghost start = self@;
        let ghost fm = fences@;
        let ghost step = |v: RecoveryView, r: (LogPosition, RawLogRecord)| recovery_step(fm, v, r);
        proof {
            lemma_try_fold_all(all, start, step);
        }
        for pair in it: records
            invariant
                it.seq() == all,
                all == records@,
                records_wf(all),
                self.wf(),
                fences.wf(),
                fm == fences@,
                start == old(self)@,
                step == (|v: RecoveryView, r: (LogPosition, RawLogRecord)|
                    recovery_step(fm, v, r)),
                try_fold(all.subrange(0, it.index() as int), start, step) == Ok::<
                    RecoveryView,
                    ErrorView,
                >(self@),
        {
            let ghost i = it.index() as int;
            proof {
                assert(all[i] == pair);
                lemma_try_fold_step(all, start, step, i);
                if try_fold(all.subrange(0, i + 1), start, step) is Err {
                    lemma_try_fold_fails(all, start, step, i + 1);
                }
            }
            let (position, record) = pair;
            match self.replay_record(fences, position, record) {
                Ok(()) => {},
                Err(e) => {
                    return Err(e);
                },
            }
        }
        proof {
            lemma_try_fold_all(all, start, step);
        }
        Ok(())
    }
}

/// What is known at least as far as before.
pub open spec fn not_behind(a: RecoveryView, b: RecoveryView) -> bool {
    &&& a.next_tx_id <= b.next_tx_id
    &&& a.next_block_id == b.next_block_id
    &&& a.watermark.packed <= b.watermark.packed
    &&& (a.max_system matches Some(t) ==> (b.max_system matches Some(u) && t.us <= u.us))
}

proof fn lemma_not_behind(
    fences: Map<u16, u64>,
    v: RecoveryView,
    records: Seq<(LogPosition, RawLogRecord)>,
    n: int,
)
    requires
        0 <= n <= records.len(),
    ensures
        recovered(fences, v, records.subrange(0, n)) matches Ok(w) ==> not_behind(v, w),
    decreases n,
{
    let step = |v: RecoveryView, r: (LogPosition, RawLogRecord)| recovery_step(fences, v, r);
    if n > 0 {
        lemma_not_behind(fences, v, records, n - 1);
        lemma_try_fold_step(records, v, step, n - 1);
    } else {
        assert(records.subrange(0, 0) =~= Seq::empty());
    }
}

/// Whatever the log holds, a recovered node goes on behind all that the
/// manifest says: transactions, times and the part of the log that is covered.
pub proof fn law_recovery_never_falls_behind(
    fences: Map<u16, u64>,
    v: RecoveryView,
    records: Seq<(LogPosition, RawLogRecord)>,
)
    requires
        recovered(fences, v, records) is Ok,
    ensures
        not_behind(v, recovered(fences, v, records)->Ok_0),
{
    assert(records.subrange(0, records.len() as int) =~= records);
    lemma_not_behind(fences, v, records, records.len() as int);
}

/// A dead record adds nothing: neither to the state nor to the transactions and
/// times that are known.
pub proof fn law_dead_records_add_nothing(
    fences: Map<u16, u64>,
    v: RecoveryView,
    r: (LogPosition, RawLogRecord),
)
    requires
        !live_at(fences, r.0),
        recovery_step(fences, v, r) is Ok,
    ensures
        ({
            let w = recovery_step(fences, v, r)->Ok_0;
            &&& w.graphs == v.graphs
            &&& w.next_tx_id == v.next_tx_id
            &&& w.max_system == v.max_system
            &&& v.watermark.packed <= w.watermark.packed
        }),
{
}

/// A node that starts anew and a node that follows the log come to the same
/// graphs, from the same graphs, over the same live records.
pub proof fn law_recovery_and_following_agree(
    fences: Map<u16, u64>,
    v: RecoveryView,
    f: FollowView,
    records: Seq<(LogPosition, RawLogRecord)>,
)
    requires
        v.graphs == f.graphs,
        forall|i: int| 0 <= i < records.len() ==> live_at(fences, (#[trigger] records[i]).0),
        recovered(fences, v, records) is Ok,
    ensures
        follow_all(fences, f, records) matches Ok(g) && g.graphs == recovered(
            fences,
            v,
            records,
        )->Ok_0.graphs,
    decreases records.len(),
{
    let step = |v: RecoveryView, r: (LogPosition, RawLogRecord)| recovery_step(fences, v, r);
    let follow = |f: FollowView, r: (LogPosition, RawLogRecord)| follow_step(fences, f, r);
    if records.len() > 0 {
        let n = records.len() - 1;
        let front = records.drop_last();
        assert(records.subrange(0, n as int) =~= front);
        assert(records.subrange(0, n + 1) =~= records);
        lemma_try_fold_step(records, v, step, n as int);
        lemma_try_fold_step(records, f, follow, n as int);
        assert forall|i: int| 0 <= i < front.len() implies live_at(
            fences,
            (#[trigger] front[i]).0,
        ) by {
            assert(front[i] == records[i]);
        }
        law_recovery_and_following_agree(fences, v, f, front);
        assert(live_at(fences, records[n as int].0));
    }
}

/// The blocks that a list of inventories holds for one of them, in order.
pub open spec fn listed_for(
    tables: Seq<RestoredTable>,
    graph: Seq<char>,
    table: Seq<char>,
    family: Seq<char>,
) -> Seq<PersistedTrie>
    decreases tables.len(),
{
    if tables.len() == 0 {
        Seq::empty()
    } else {
        let before = listed_for(tables.drop_last(), graph, table, family);
        let t = tables.last();
        if t.scope.graph@ == graph && t.scope.table@ == table && t.scope.family@ == family {
            before + t.tries@
        } else {
            before
        }
    }
}

/// Restoring an inventory puts its blocks behind those of the inventory that it
/// names. The three other inventories of the graph, what the graph has not
/// flushed, every other graph and all else stay as they are.
pub proof fn law_restoring_adds_to_one_inventory(s: StateView, t: RestoredTable)
    ensures
        restore_step(s, t) is Ok <==> (t.scope.table@ == "nodes"@ && t.scope.family@ == ""@) || (
        t.scope.table@ == "edges"@ && (t.scope.family@ == ""@ || t.scope.family@ == "adj-out"@
            || t.scope.family@ == "adj-in"@)),
        restore_step(s, t) matches Ok(w) ==> {
            let g = t.scope.graph@;
            let had = s.graphs.dom().contains(g);
            let none = Seq::<PersistedTrie>::empty();
            let edges = t.scope.table@ == "edges"@;
            let family = t.scope.family@;
            let new = t.tries@;
            &&& w.graphs.dom() == s.graphs.dom().insert(g)
            &&& forall|x: Seq<char>| x != g ==> #[trigger] w.graphs[x] == s.graphs[x]
            &&& w.graphs[g].nodes.tries == (if had {
                s.graphs[g].nodes.tries
            } else {
                none
            }) + (if t.scope.table@ == "nodes"@ {
                new
            } else {
                none
            })
            &&& w.graphs[g].edges.tries == (if had {
                s.graphs[g].edges.tries
            } else {
                none
            }) + (if edges && family == ""@ {
                new
            } else {
                none
            })
            &&& w.graphs[g].adj_out == (if had {
                s.graphs[g].adj_out
            } else {
                none
            }) + (if edges && family == "adj-out"@ {
                new
            } else {
                none
            })
            &&& w.graphs[g].adj_in == (if had {
                s.graphs[g].adj_in
            } else {
                none
            }) + (if edges && family == "adj-in"@ {
                new
            } else {
                none
            })
            &&& (had ==> w.graphs[g].nodes.live == s.graphs[g].nodes.live
                && w.graphs[g].nodes.sealed == s.graphs[g].nodes.sealed
                && w.graphs[g].edges.live == s.graphs[g].edges.live
                && w.graphs[g].edges.sealed == s.graphs[g].edges.sealed)
            &&& w.catalog == s.catalog
            &&& w.security_epoch == s.security_epoch
            &&& w.scan_stats == s.scan_stats
        },
{
    lemma_scope_names();
    let none = Seq::<PersistedTrie>::empty();
    match restore_step(s, t) {
        Ok(w) => {
            let was = if s.graphs.dom().contains(t.scope.graph@) {
                s.graphs[t.scope.graph@]
            } else {
                TableView::empty()
            };
            lemma_added(was.nodes.tries, none, none);
            lemma_added(was.edges.tries, none, none);
            lemma_added(was.adj_out, none, none);
            lemma_added(was.adj_in, none, none);
            assert(w.graphs.dom() =~= s.graphs.dom().insert(t.scope.graph@));
        },
        Err(_) => {},
    }
}

proof fn lemma_scope_names()
    ensures
        "nodes"@ != "edges"@,
        ""@ != "adj-out"@,
        ""@ != "adj-in"@,
        "adj-out"@ != "adj-in"@,
{
    reveal_strlit("nodes");
    reveal_strlit("edges");
    reveal_strlit("");
    reveal_strlit("adj-out");
    reveal_strlit("adj-in");
    assert("nodes"@[0] != "edges"@[0]);
    assert(""@.len() != "adj-out"@.len());
    assert(""@.len() != "adj-in"@.len());
    assert("adj-out"@.len() != "adj-in"@.len());
}

/// After a restore every graph lists, in each of its four inventories, the
/// blocks it listed before and behind them every block that the list holds for
/// that inventory, in order. What it has not flushed is untouched, and no graph
/// goes.
pub proof fn law_restored_graphs_list_every_block(
    s: StateView,
    tables: Seq<RestoredTable>,
    g: Seq<char>,
)
    requires
        try_fold(tables, s, |s: StateView, t: RestoredTable| restore_step(s, t)) is Ok,
    ensures
        ({
            let w = try_fold(tables, s, |s: StateView, t: RestoredTable| restore_step(s, t))->Ok_0;
            let had = s.graphs.dom().contains(g);
            let none = Seq::<PersistedTrie>::empty();
            &&& (w.graphs.dom().contains(g) <==> had || exists|i: int|
                0 <= i < tables.len() && (#[trigger] tables[i]).scope.graph@ == g)
            &&& (w.graphs.dom().contains(g) ==> {
                &&& w.graphs[g].nodes.tries == (if had {
                    s.graphs[g].nodes.tries
                } else {
                    none
                }) + listed_for(tables, g, "nodes"@, ""@)
                &&& w.graphs[g].edges.tries == (if had {
                    s.graphs[g].edges.tries
                } else {
                    none
                }) + listed_for(tables, g, "edges"@, ""@)
                &&& w.graphs[g].adj_out == (if had {
                    s.graphs[g].adj_out
                } else {
                    none
                }) + listed_for(tables, g, "edges"@, "adj-out"@)
                &&& w.graphs[g].adj_in == (if had {
                    s.graphs[g].adj_in
                } else {
                    none
                }) + listed_for(tables, g, "edges"@, "adj-in"@)
            })
            &&& (had ==> w.graphs[g].nodes.live == s.graphs[g].nodes.live
                && w.graphs[g].nodes.sealed == s.graphs[g].nodes.sealed
                && w.graphs[g].edges.live == s.graphs[g].edges.live
                && w.graphs[g].edges.sealed == s.graphs[g].edges.sealed)
            &&& w.catalog == s.catalog
            &&& w.security_epoch == s.security_epoch
            &&& w.scan_stats == s.scan_stats
        }),
    decreases tables.len(),
{
    let step = |s: StateView, t: RestoredTable| restore_step(s, t);
    let none = Seq::<PersistedTrie>::empty();
    let had = s.graphs.dom().contains(g);
    let was = if had {
        s.graphs[g]
    } else {
        TableView::empty()
    };
    lemma_scope_names();
    if tables.len() == 0 {
        lemma_added(was.nodes.tries, none, none);
        lemma_added(was.edges.tries, none, none);
        lemma_added(was.adj_out, none, none);
        lemma_added(was.adj_in, none, none);
    } else {
        let front = tables.drop_last();
        let t = tables.last();
        law_restored_graphs_list_every_block(s, front, g);
        let v = try_fold(front, s, step)->Ok_0;
        let w = try_fold(tables, s, step)->Ok_0;
        assert(restore_step(v, t) == Ok::<StateView, ErrorView>(w));
        law_restoring_adds_to_one_inventory(v, t);
        if exists|i: int| 0 <= i < front.len() && (#[trigger] front[i]).scope.graph@ == g {
            let i = choose|i: int| 0 <= i < front.len() && (#[trigger] front[i]).scope.graph@ == g;
            assert(tables[i].scope.graph@ == g);
        }
        if t.scope.graph@ == g {
            assert(tables[tables.len() - 1].scope.graph@ == g);
        }
        if exists|i: int| 0 <= i < tables.len() && (#[trigger] tables[i]).scope.graph@ == g {
            let i = choose|i: int|
                0 <= i < tables.len() && (#[trigger] tables[i]).scope.graph@ == g;
            if i < front.len() {
                assert(front[i].scope.graph@ == g);
            }
        }
        if t.scope.graph@ == g {
            if !v.graphs.dom().contains(g) {
                lemma_none_listed(front, g);
            }
            let a = listed_for(front, g, "nodes"@, ""@);
            let b = listed_for(front, g, "edges"@, ""@);
            let c = listed_for(front, g, "edges"@, "adj-out"@);
            let d = listed_for(front, g, "edges"@, "adj-in"@);
            lemma_added(was.nodes.tries, a, t.tries@);
            lemma_added(was.edges.tries, b, t.tries@);
            lemma_added(was.adj_out, c, t.tries@);
            lemma_added(was.adj_in, d, t.tries@);
            lemma_added(was.nodes.tries + a, none, none);
            lemma_added(was.edges.tries + b, none, none);
            lemma_added(was.adj_out + c, none, none);
            lemma_added(was.adj_in + d, none, none);
            lemma_added(none, none, t.tries@);
        } else {
            assert(w.graphs[g] == v.graphs[g]);
        }
    }
}

proof fn lemma_none_listed(tables: Seq<RestoredTable>, g: Seq<char>)
    requires
        forall|i: int| 0 <= i < tables.len() ==> (#[trigger] tables[i]).scope.graph@ != g,
    ensures
        forall|table: Seq<char>, family: Seq<char>| #[trigger]
            listed_for(tables, g, table, family) == Seq::<PersistedTrie>::empty(),
    decreases tables.len(),
{
    if tables.len() > 0 {
        let front = tables.drop_last();
        assert forall|i: int| 0 <= i < front.len() implies (#[trigger] front[i]).scope.graph@
            != g by {
            assert(front[i] == tables[i]);
        }
        lemma_none_listed(front, g);
        assert(tables[tables.len() - 1].scope.graph@ != g);
        assert forall|table: Seq<char>, family: Seq<char>| #[trigger]
            listed_for(tables, g, table, family) == Seq::<PersistedTrie>::empty() by {
            assert(listed_for(front, g, table, family) == Seq::<PersistedTrie>::empty());
        }
    }
}

proof fn lemma_added<T>(a: Seq<T>, b: Seq<T>, c: Seq<T>)
    ensures
        (a + b) + c == a + (b + c),
        a + Seq::<T>::empty() == a,
        Seq::<T>::empty() + c == c,
        b.len() == 0 ==> a + b == a,
{
    assert((a + b) + c =~= a + (b + c));
    assert(a + Seq::<T>::empty() =~= a);
    assert(Seq::<T>::empty() + c =~= c);
    if b.len() == 0 {
        assert(a + b =~= a);
    }
}

/// What a list of inventories of a manifest names for one of them, in order.
pub open spec fn named_for(
    tables: Seq<TableTriesView>,
    graph: Seq<char>,
    table: Seq<char>,
    family: Seq<char>,
) -> Seq<TrieEntry>
    decreases tables.len(),
{
    if tables.len() == 0 {
        Seq::empty()
    } else {
        let before = named_for(tables.drop_last(), graph, table, family);
        let t = tables.last();
        if t.graph == graph && t.table == table && t.family == family {
            before + t.tries
        } else {
            before
        }
    }
}

/// The inventories of a manifest, each with the page indexes of its blocks.
pub open spec fn read_from(tables: Seq<RestoredTable>, named: Seq<TableTriesView>) -> bool {
    &&& tables.len() == named.len()
    &&& forall|k: int|
        0 <= k < tables.len() ==> {
            &&& (#[trigger] tables[k]).scope.graph@ == named[k].graph
            &&& tables[k].scope.table@ == named[k].table
            &&& tables[k].scope.family@ == named[k].family
            &&& entries(tables[k].tries@) == named[k].tries
        }
}

proof fn lemma_named_is_listed(
    tables: Seq<RestoredTable>,
    named: Seq<TableTriesView>,
    graph: Seq<char>,
    table: Seq<char>,
    family: Seq<char>,
)
    requires
        read_from(tables, named),
    ensures
        entries(listed_for(tables, graph, table, family)) == named_for(
            named,
            graph,
            table,
            family,
        ),
    decreases tables.len(),
{
    if tables.len() > 0 {
        let front = tables.drop_last();
        let rest = named.drop_last();
        assert forall|k: int| 0 <= k < front.len() implies ({
            &&& (#[trigger] front[k]).scope.graph@ == rest[k].graph
            &&& front[k].scope.table@ == rest[k].table
            &&& front[k].scope.family@ == rest[k].family
            &&& entries(front[k].tries@) == rest[k].tries
        }) by {
            assert(front[k] == tables[k]);
            assert(rest[k] == named[k]);
        }
        lemma_named_is_listed(front, rest, graph, table, family);
        let t = tables[tables.len() - 1];
        let before = listed_for(front, graph, table, family);
        assert(entries(before + t.tries@) =~= entries(before) + entries(t.tries@));
    } else {
        assert(entries(Seq::<PersistedTrie>::empty()) =~= Seq::<TrieEntry>::empty());
    }
}

proof fn lemma_named_split(
    a: Seq<TableTriesView>,
    b: Seq<TableTriesView>,
    graph: Seq<char>,
    table: Seq<char>,
    family: Seq<char>,
)
    ensures
        named_for(a + b, graph, table, family) == named_for(a, graph, table, family) + named_for(
            b,
            graph,
            table,
            family,
        ),
    decreases b.len(),
{
    if b.len() == 0 {
        assert(a + b =~= a);
    } else {
        lemma_named_split(a, b.drop_last(), graph, table, family);
        assert((a + b).drop_last() =~= a + b.drop_last());
        assert((a + b).last() == b.last());
        let x = named_for(a, graph, table, family);
        let y = named_for(b.drop_last(), graph, table, family);
        assert((x + y) + b.last().tries =~= x + (y + b.last().tries));
    }
}

proof fn lemma_named_of_slot(
    seal: GraphSeal,
    enc: GraphEncoded,
    trie_key: String,
    slot: Slot,
    graph: Seq<char>,
    table: Seq<char>,
    family: Seq<char>,
)
    ensures
        named_for(slot_tables(seal, enc, slot, trie_key), graph, table, family) == (
        if seal.graph@ == graph && slot.table_spec() == table && slot.family_spec() == family {
            tries_after(seal, enc, slot, trie_key)
        } else {
            Seq::empty()
        }),
{
    let all = slot_tables(seal, enc, slot, trie_key);
    if all.len() > 0 {
        assert(all.drop_last() =~= Seq::<TableTriesView>::empty());
        assert(named_for(all.drop_last(), graph, table, family) == Seq::<TrieEntry>::empty());
        assert(Seq::<TrieEntry>::empty() + all.last().tries =~= all.last().tries);
    } else {
        assert(tries_after(seal, enc, slot, trie_key) =~= Seq::<TrieEntry>::empty());
    }
}

proof fn lemma_named_of_graph(
    seal: GraphSeal,
    enc: GraphEncoded,
    trie_key: String,
    graph: Seq<char>,
)
    ensures
        ({
            let all = graph_tables(seal, enc, trie_key);
            let own = seal.graph@ == graph;
            let none = Seq::<TrieEntry>::empty();
            &&& named_for(all, graph, "nodes"@, ""@) == if own {
                tries_after(seal, enc, Slot::Nodes, trie_key)
            } else {
                none
            }
            &&& named_for(all, graph, "edges"@, ""@) == if own {
                tries_after(seal, enc, Slot::Edges, trie_key)
            } else {
                none
            }
            &&& named_for(all, graph, "edges"@, "adj-out"@) == if own {
                tries_after(seal, enc, Slot::AdjOut, trie_key)
            } else {
                none
            }
            &&& named_for(all, graph, "edges"@, "adj-in"@) == if own {
                tries_after(seal, enc, Slot::AdjIn, trie_key)
            } else {
                none
            }
        }),
{
    lemma_scope_names();
    let a = slot_tables(seal, enc, Slot::Nodes, trie_key);
    let b = slot_tables(seal, enc, Slot::Edges, trie_key);
    let c = slot_tables(seal, enc, Slot::AdjOut, trie_key);
    let d = slot_tables(seal, enc, Slot::AdjIn, trie_key);
    let none = Seq::<TrieEntry>::empty();
    assert forall|x: Seq<TrieEntry>| #[trigger] (x + none) == x && none + x == x by {
        assert(x + none =~= x);
        assert(none + x =~= x);
    }
    assert forall|table: Seq<char>, family: Seq<char>| #[trigger]
        named_for(a + b + c + d, graph, table, family) == named_for(a, graph, table, family)
            + named_for(b, graph, table, family) + named_for(c, graph, table, family)
            + named_for(d, graph, table, family) by {
        lemma_named_split(a + b + c, d, graph, table, family);
        lemma_named_split(a + b, c, graph, table, family);
        lemma_named_split(a, b, graph, table, family);
    }
    assert forall|table: Seq<char>, family: Seq<char>|
        #![trigger named_for(a, graph, table, family)]
        named_for(a, graph, table, family) == (if seal.graph@ == graph && table == "nodes"@
            && family == ""@ {
            tries_after(seal, enc, Slot::Nodes, trie_key)
        } else {
            none
        }) by {
        lemma_named_of_slot(seal, enc, trie_key, Slot::Nodes, graph, table, family);
    }
    assert forall|table: Seq<char>, family: Seq<char>|
        #![trigger named_for(b, graph, table, family)]
        named_for(b, graph, table, family) == (if seal.graph@ == graph && table == "edges"@
            && family == ""@ {
            tries_after(seal, enc, Slot::Edges, trie_key)
        } else {
            none
        }) by {
        lemma_named_of_slot(seal, enc, trie_key, Slot::Edges, graph, table, family);
    }
    assert forall|table: Seq<char>, family: Seq<char>|
        #![trigger named_for(c, graph, table, family)]
        named_for(c, graph, table, family) == (if seal.graph@ == graph && table == "edges"@
            && family == "adj-out"@ {
            tries_after(seal, enc, Slot::AdjOut, trie_key)
        } else {
            none
        }) by {
        lemma_named_of_slot(seal, enc, trie_key, Slot::AdjOut, graph, table, family);
    }
    assert forall|table: Seq<char>, family: Seq<char>|
        #![trigger named_for(d, graph, table, family)]
        named_for(d, graph, table, family) == (if seal.graph@ == graph && table == "edges"@
            && family == "adj-in"@ {
            tries_after(seal, enc, Slot::AdjIn, trie_key)
        } else {
            none
        }) by {
        lemma_named_of_slot(seal, enc, trie_key, Slot::AdjIn, graph, table, family);
    }
}

proof fn lemma_named_upto(
    seals: Seq<GraphSeal>,
    encoded: Seq<GraphEncoded>,
    trie_key: String,
    n: int,
    i: int,
)
    requires
        0 <= n <= seals.len(),
        0 <= i < seals.len(),
        forall|a: int, b: int|
            0 <= a < b < seals.len() ==> (#[trigger] seals[a]).graph@ != (
            #[trigger] seals[b]).graph@,
    ensures
        ({
            let all = tables_upto(seals, encoded, trie_key, n);
            let graph = seals[i].graph@;
            let none = Seq::<TrieEntry>::empty();
            &&& named_for(all, graph, "nodes"@, ""@) == if i < n {
                tries_after(seals[i], encoded[i], Slot::Nodes, trie_key)
            } else {
                none
            }
            &&& named_for(all, graph, "edges"@, ""@) == if i < n {
                tries_after(seals[i], encoded[i], Slot::Edges, trie_key)
            } else {
                none
            }
            &&& named_for(all, graph, "edges"@, "adj-out"@) == if i < n {
                tries_after(seals[i], encoded[i], Slot::AdjOut, trie_key)
            } else {
                none
            }
            &&& named_for(all, graph, "edges"@, "adj-in"@) == if i < n {
                tries_after(seals[i], encoded[i], Slot::AdjIn, trie_key)
            } else {
                none
            }
        }),
    decreases n,
{
    let graph = seals[i].graph@;
    if n > 0 {
        lemma_named_upto(seals, encoded, trie_key, n - 1, i);
        let before = tables_upto(seals, encoded, trie_key, n - 1);
        let last = graph_tables(seals[n - 1], encoded[n - 1], trie_key);
        lemma_named_of_graph(seals[n - 1], encoded[n - 1], trie_key, graph);
        lemma_named_split(before, last, graph, "nodes"@, ""@);
        lemma_named_split(before, last, graph, "edges"@, ""@);
        lemma_named_split(before, last, graph, "edges"@, "adj-out"@);
        lemma_named_split(before, last, graph, "edges"@, "adj-in"@);
        let none = Seq::<TrieEntry>::empty();
        assert forall|x: Seq<TrieEntry>| #[trigger] (x + none) == x && none + x == x by {
            assert(x + none =~= x);
            assert(none + x =~= x);
        }
        if i < n - 1 {
            assert(seals[i].graph@ != seals[n - 1].graph@);
        }
        if i > n - 1 {
            assert(seals[n - 1].graph@ != seals[i].graph@);
        }
    }
}

/// A manifest that a flush writes, read back, gives every graph the blocks of
/// all its four inventories as the flush left them. A graph of which the
/// restored state knows nothing has no block.
pub proof fn law_a_manifest_gives_back_the_inventories(
    s: StateView,
    job: FlushJob,
    encoded: Seq<GraphEncoded>,
    trie_key: String,
    m: BlockManifest,
    tables: Seq<RestoredTable>,
    i: int,
)
    requires
        is_manifest(m, job, encoded, trie_key),
        forall|a: int, b: int|
            0 <= a < b < job.graphs@.len() ==> (#[trigger] job.graphs@[a]).graph@ != (
            #[trigger] job.graphs@[b]).graph@,
        0 <= i < job.graphs@.len(),
        seal_of(job.graphs@[i], job.graphs@[i].graph@, s.graphs[job.graphs@[i].graph@]),
        read_from(tables, views(m.tables@)),
        try_fold(
            tables,
            StateView::initial(),
            |s: StateView, t: RestoredTable| restore_step(s, t),
        ) is Ok,
    ensures
        ({
            let g = job.graphs@[i].graph@;
            let after = table_committed(s.graphs[g], encoded[i], trie_key);
            let w = try_fold(
                tables,
                StateView::initial(),
                |s: StateView, t: RestoredTable| restore_step(s, t),
            )->Ok_0;
            if w.graphs.dom().contains(g) {
                &&& entries(w.graphs[g].nodes.tries) == entries(after.nodes.tries)
                &&& entries(w.graphs[g].edges.tries) == entries(after.edges.tries)
                &&& entries(w.graphs[g].adj_out) == entries(after.adj_out)
                &&& entries(w.graphs[g].adj_in) == entries(after.adj_in)
            } else {
                &&& after.nodes.tries.len() == 0
                &&& after.edges.tries.len() == 0
                &&& after.adj_out.len() == 0
                &&& after.adj_in.len() == 0
            }
        }),
{
    let g = job.graphs@[i].graph@;
    let t = s.graphs[g];
    let after = table_committed(t, encoded[i], trie_key);
    let named = views(m.tables@);
    lemma_named_upto(job.graphs@, encoded, trie_key, job.graphs@.len() as int, i);
    lemma_named_is_listed(tables, named, g, "nodes"@, ""@);
    lemma_named_is_listed(tables, named, g, "edges"@, ""@);
    lemma_named_is_listed(tables, named, g, "edges"@, "adj-out"@);
    lemma_named_is_listed(tables, named, g, "edges"@, "adj-in"@);
    law_manifest_lists_the_state(t, job.graphs@[i], encoded[i], trie_key, Slot::Nodes);
    law_manifest_lists_the_state(t, job.graphs@[i], encoded[i], trie_key, Slot::Edges);
    law_manifest_lists_the_state(t, job.graphs@[i], encoded[i], trie_key, Slot::AdjOut);
    law_manifest_lists_the_state(t, job.graphs@[i], encoded[i], trie_key, Slot::AdjIn);
    law_restored_graphs_list_every_block(StateView::initial(), tables, g);
    let w = try_fold(
        tables,
        StateView::initial(),
        |s: StateView, t: RestoredTable| restore_step(s, t),
    )->Ok_0;
    let none = Seq::<PersistedTrie>::empty();
    lemma_added(none, none, listed_for(tables, g, "nodes"@, ""@));
    lemma_added(none, none, listed_for(tables, g, "edges"@, ""@));
    lemma_added(none, none, listed_for(tables, g, "edges"@, "adj-out"@));
    lemma_added(none, none, listed_for(tables, g, "edges"@, "adj-in"@));
    if w.graphs.dom().contains(g) {
        assert(StateView::initial().graphs.dom().contains(g) ==> StateView::initial().graphs[g]
            == TableView::empty());
    } else {
        lemma_none_listed(tables, g);
        assert(entries(none) =~= Seq::<TrieEntry>::empty());
        assert(entries(after.nodes.tries).len() == after.nodes.tries.len());
        assert(entries(after.edges.tries).len() == after.edges.tries.len());
        assert(entries(after.adj_out).len() == after.adj_out.len());
        assert(entries(after.adj_in).len() == after.adj_in.len());
    }
}

/// A node starts behind its manifest: with the next block, behind the covered
/// part of the log, and no earlier than the transactions and times that it
/// names; without one it starts at the beginning.
pub proof fn law_recovery_starts_behind_the_manifest(m: BlockManifest)
    requires
        m.block_id < u64::MAX,
    ensures
        recovery_start(Some(m)).next_block_id == m.block_id + 1,
        recovery_start(Some(m)).next_tx_id == m.max_tx_id,
        recovery_start(Some(m)).watermark.packed == m.watermark,
        recovery_start(Some(m)).expected.packed == m.watermark,
        recovery_start(Some(m)).max_system matches Some(t) && t.us == m.max_system_time_us,
        recovery_start(None).next_block_id == 0,
        recovery_start(None).next_tx_id == 0,
        recovery_start(None).watermark.packed == 0,
        recovery_start(None).expected.packed == 0,
        recovery_start(None).max_system is None,
{
}

/// A live record is taken in only where it is expected, and with all that it
/// says: its effects, its transaction and its time; the next one is expected
/// right behind it, and the log is covered that far.
pub proof fn law_live_records_are_taken_in(
    fences: Map<u16, u64>,
    v: RecoveryView,
    r: (LogPosition, RawLogRecord),
)
    requires
        live_at(fences, r.0),
        recovery_step(fences, v, r) is Ok,
    ensures
        ({
            let w = recovery_step(fences, v, r)->Ok_0;
            &&& r.0 == v.expected
            &&& (decode_effects(r.1.effects@) matches Ok(effects) && apply_record(
                v.graphs,
                effects,
            ) == Ok::<StateView, ErrorView>(w.graphs))
            &&& w.next_tx_id >= r.1.tx_id
            &&& w.next_tx_id >= v.next_tx_id
            &&& (w.next_tx_id == r.1.tx_id || w.next_tx_id == v.next_tx_id)
            &&& (w.max_system matches Some(t) && t.us >= r.1.system_time_us)
            &&& w.expected.packed == r.0.packed + 1
            &&& w.watermark.packed >= w.expected.packed
            &&& w.next_block_id == v.next_block_id
        }),
{
    let next = position_after(r.0)->Ok_0;
    assert(r.0.packed + 1 <= u64::MAX) by (nonlinear_arith)
        requires
            r.0.packed % EPOCH_SPAN + 1 < EPOCH_SPAN,
            EPOCH_SPAN == 281_474_976_710_656,
            r.0.packed <= u64::MAX,
    ;
}

} // verus!
