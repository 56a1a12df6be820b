//! The queryable state of the database: for each graph the unflushed tails of
//! its tables and the inventory of what is persisted.

use crate::effects::sat;
use crate::error::{EngineError, ErrorView, IndexError, IndexErrorView};
use crate::event::{events_wf, Event};
use crate::fold::{fold, lemma_fold_all, lemma_fold_step};
use crate::security::SECURITY_GRAPH;
use crate::sorted::{lemma_map_keys_sorted, lemma_sorted_domain, sorted_seq, SortedMap};
use crate::types::{Iid, Instant};
use vstd::prelude::*;

verus! {

pub const DEFAULT_GRAPH: &'static str = "default";

/// The reserved graph that holds the catalog of graphs.
pub const META_GRAPH: &'static str = "__meta";

pub const NODES_TABLE: &'static str = "nodes";

pub const EDGES_TABLE: &'static str = "edges";

/// The two tables of a graph.
#[derive(Clone, Copy, Debug, PartialEq, Eq, Structural)]
pub enum TableKind {
    Nodes,
    Edges,
}

impl TableKind {
    pub open spec fn name_spec(self) -> Seq<char> {
        match self {
            TableKind::Nodes => NODES_TABLE@,
            TableKind::Edges => EDGES_TABLE@,
        }
    }

    /// The name of the table in object keys and records.
    pub fn name(self) -> (r: &'static str)
        ensures
            r@ == self.name_spec(),
    {
        match self {
            TableKind::Nodes => NODES_TABLE,
            TableKind::Edges => EDGES_TABLE,
        }
    }
}

/// One persisted block in a manifest.
#[derive(Debug)]
pub struct TrieEntry {
    pub trie_key: String,
    pub row_count: u64,
    pub data_len: u64,
}

impl TrieEntry {
    pub fn clone_entry(&self) -> (r: TrieEntry)
        ensures
            r == *self,
    {
        TrieEntry {
            trie_key: self.trie_key.clone(),
            row_count: self.row_count,
            data_len: self.data_len,
        }
    }
}

/// Where one page of a block stands, and the bounds of what it holds.
#[derive(Debug)]
pub struct PageMeta {
    pub path: Vec<u8>,
    pub offset: u64,
    pub len: u64,
    pub rows: u64,
    pub min_iid: Iid,
    pub max_iid: Iid,
    pub min_system_from: Instant,
    pub max_system_from: Instant,
    pub min_valid_from: Instant,
    pub max_valid_from: Instant,
    pub min_valid_to: Instant,
    pub max_valid_to: Instant,
    pub has_erase: bool,
}

/// One persisted block: its manifest entry, its page index, and the encoded
/// indexes beside it, as far as it has them.
#[derive(Debug)]
pub struct PersistedTrie {
    pub entry: TrieEntry,
    pub pages: Vec<PageMeta>,
    pub labels: Option<Vec<u8>>,
    pub keys: Option<Vec<u8>>,
    pub props: Option<Vec<u8>>,
}

/// The unflushed events of a table, in the order of their system time.
#[derive(Debug)]
pub struct LiveTable {
    pub events: Vec<Event>,
}

/// Events in the order of their system time.
pub open spec fn in_time_order(events: Seq<Event>) -> bool {
    forall|i: int, j: int|
        0 <= i <= j < events.len() ==> (#[trigger] events[i]).system_from.us <= (
        #[trigger] events[j]).system_from.us
}

/// The system time of the last event.
pub open spec fn last_time(events: Seq<Event>) -> Option<Instant> {
    if events.len() == 0 {
        None
    } else {
        Some(events.last().system_from)
    }
}

impl View for LiveTable {
    type V = Seq<Event>;

    open spec fn view(&self) -> Seq<Event> {
        self.events@
    }
}

impl LiveTable {
    pub open spec fn wf(&self) -> bool {
        in_time_order(self.events@) && events_wf(self.events@)
    }

    pub fn new() -> (r: LiveTable)
        ensures
            r.wf(),
            r@ == Seq::<Event>::empty(),
    {
        LiveTable { events: Vec::new() }
    }

    pub fn event_count(&self) -> (r: usize)
        ensures
            r == self@.len(),
    {
        self.events.len()
    }

    pub fn last_system_from(&self) -> (r: Option<Instant>)
        ensures
            r == last_time(self@),
    {
        if self.events.len() == 0 {
            None
        } else {
            Some(self.events[self.events.len() - 1].system_from)
        }
    }

    /// Adds an event; one that is earlier than the last is refused.
    pub fn append(&mut self, event: Event) -> (r: Result<(), EngineError>)
        requires
            old(self).wf(),
            event.wf(),
        ensures
            final(self).wf(),
            match r {
                Ok(()) => appended(old(self)@, event) == Ok::<Seq<Event>, ErrorView>(final(self)@),
                Err(e) => appended(old(self)@, event) == Err::<Seq<Event>, ErrorView>(e@)
                    && final(self)@ == old(self)@,
            },
    {
        match self.last_system_from() {
            Some(last) => {
                if event.system_from.us < last.us {
                    return Err(
                        EngineError::Index(
                            IndexError::OutOfOrderEvent { last, got: event.system_from },
                        ),
                    );
                }
            },
            None => {},
        }
        self.events.push(event);
        Ok(())
    }
}

/// A tail with one more event; one that is earlier than the last is refused.
pub open spec fn appended(tail: Seq<Event>, e: Event) -> Result<Seq<Event>, ErrorView> {
    match last_time(tail) {
        Some(last) => if e.system_from.us < last.us {
            Err(ErrorView::Index(IndexErrorView::OutOfOrderEvent { last, got: e.system_from }))
        } else {
            Ok(tail.push(e))
        },
        None => Ok(tail.push(e)),
    }
}

/// One table: the tail that takes new events, the tail that is being flushed,
/// and the persisted blocks in the order of their time.
#[derive(Debug)]
pub struct TableCore {
    pub live: LiveTable,
    pub sealed: Option<LiveTable>,
    pub tries: Vec<PersistedTrie>,
}

#[verifier::ext_equal]
pub struct CoreView {
    pub live: Seq<Event>,
    pub sealed: Option<Seq<Event>>,
    pub tries: Seq<PersistedTrie>,
}

impl View for TableCore {
    type V = CoreView;

    open spec fn view(&self) -> CoreView {
        CoreView {
            live: self.live@,
            sealed: match self.sealed {
                Some(s) => Some(s@),
                None => None,
            },
            tries: self.tries@,
        }
    }
}

impl CoreView {
    pub open spec fn empty() -> CoreView {
        CoreView { live: Seq::empty(), sealed: None, tries: Seq::empty() }
    }

    /// The number of events that no block holds yet.
    pub open spec fn unflushed(self) -> int {
        self.live.len() + match self.sealed {
            Some(s) => s.len() as int,
            None => 0,
        }
    }
}

impl TableCore {
    pub open spec fn wf(&self) -> bool {
        self.live.wf() && (self.sealed matches Some(s) ==> s.wf())
    }

    pub fn new() -> (r: TableCore)
        ensures
            r.wf(),
            r@ == CoreView::empty(),
    {
        TableCore { live: LiveTable::new(), sealed: None, tries: Vec::new() }
    }

    /// The number of events that no block holds yet.
    pub fn unflushed_rows(&self) -> (r: usize)
        ensures
            r == sat(self@.unflushed()),
    {
        match &self.sealed {
            Some(s) => self.live.event_count().saturating_add(s.event_count()),
            None => self.live.event_count(),
        }
    }
}

/// One graph: its two tables and the persisted adjacency families of its
/// edges.
#[derive(Debug)]
pub struct TableState {
    pub nodes: TableCore,
    pub edges: TableCore,
    pub adj_out: Vec<PersistedTrie>,
    pub adj_in: Vec<PersistedTrie>,
}

#[verifier::ext_equal]
pub struct TableView {
    pub nodes: CoreView,
    pub edges: CoreView,
    pub adj_out: Seq<PersistedTrie>,
    pub adj_in: Seq<PersistedTrie>,
}

impl View for TableState {
    type V = TableView;

    open spec fn view(&self) -> TableView {
        TableView {
            nodes: self.nodes@,
            edges: self.edges@,
            adj_out: self.adj_out@,
            adj_in: self.adj_in@,
        }
    }
}

impl TableView {
    pub open spec fn empty() -> TableView {
        TableView {
            nodes: CoreView::empty(),
            edges: CoreView::empty(),
            adj_out: Seq::empty(),
            adj_in: Seq::empty(),
        }
    }

    pub open spec fn table(self, kind: TableKind) -> CoreView {
        match kind {
            TableKind::Nodes => self.nodes,
            TableKind::Edges => self.edges,
        }
    }

    pub open spec fn with_core(self, kind: TableKind, core: CoreView) -> TableView {
        match kind {
            TableKind::Nodes => TableView { nodes: core, ..self },
            TableKind::Edges => TableView { edges: core, ..self },
        }
    }

    pub open spec fn with_live(self, kind: TableKind, live: Seq<Event>) -> TableView {
        self.with_core(kind, CoreView { live, ..self.table(kind) })
    }

    pub open spec fn unflushed(self) -> int {
        self.nodes.unflushed() + self.edges.unflushed()
    }
}

impl TableState {
    pub open spec fn wf(&self) -> bool {
        self.nodes.wf() && self.edges.wf()
    }

    pub fn new() -> (r: TableState)
        ensures
            r.wf(),
            r@ == TableView::empty(),
    {
        TableState {
            nodes: TableCore::new(),
            edges: TableCore::new(),
            adj_out: Vec::new(),
            adj_in: Vec::new(),
        }
    }

    pub fn table(&self, kind: TableKind) -> (r: &TableCore)
        ensures
            r@ == self@.table(kind),
            self.wf() ==> r.wf(),
    {
        match kind {
            TableKind::Nodes => &self.nodes,
            TableKind::Edges => &self.edges,
        }
    }

    /// Adds an event to the tail of a table.
    pub fn append(&mut self, kind: TableKind, event: Event) -> (r: Result<(), EngineError>)
        requires
            old(self).wf(),
            event.wf(),
        ensures
            final(self).wf(),
            match r {
                Ok(()) => appended(old(self)@.table(kind).live, event) == Ok::<
                    Seq<Event>,
                    ErrorView,
                >(final(self)@.table(kind).live) && final(self)@ == old(self)@.with_live(
                    kind,
                    final(self)@.table(kind).live,
                ),
                Err(e) => appended(old(self)@.table(kind).live, event) == Err::<
                    Seq<Event>,
                    ErrorView,
                >(e@) && final(self)@ == old(self)@,
            },
    {
        match kind {
            TableKind::Nodes => self.nodes.live.append(event),
            TableKind::Edges => self.edges.live.append(event),
        }
    }

    /// The number of events that no block holds yet.
    pub fn live_rows(&self) -> (r: usize)
        ensures
            r == sat(self@.unflushed()),
    {
        self.nodes.unflushed_rows().saturating_add(self.edges.unflushed_rows())
    }
}

/// What queries read out of blocks. The counts wrap around.
#[derive(Debug)]
pub struct ScanStats {
    pub block_pages_read: u64,
    pub block_events_decoded: u64,
    pub block_pages_cached: u64,
    pub blocks_skipped: u64,
}

/// `a + b`, wrapping around.
pub open spec fn wrapped(a: int, b: int) -> u64 {
    ((a + b) % 0x1_0000_0000_0000_0000) as u64
}

impl ScanStats {
    /// Nothing was read.
    pub open spec fn none() -> ScanStats {
        ScanStats {
            block_pages_read: 0,
            block_events_decoded: 0,
            block_pages_cached: 0,
            blocks_skipped: 0,
        }
    }

    pub fn new() -> (r: ScanStats)
        ensures
            r == ScanStats::none(),
    {
        ScanStats {
            block_pages_read: 0,
            block_events_decoded: 0,
            block_pages_cached: 0,
            blocks_skipped: 0,
        }
    }

    /// Counts a page that was read and decoded into `events` events.
    pub fn record_page(&mut self, events: usize)
        ensures
            *final(self) == (ScanStats {
                block_pages_read: wrapped(old(self).block_pages_read as int, 1),
                block_events_decoded: wrapped(old(self).block_events_decoded as int, events as int),
                ..*old(self)
            }),
    {
        self.block_pages_read = self.block_pages_read.wrapping_add(1);
        self.block_events_decoded = self.block_events_decoded.wrapping_add(events as u64);
    }

    /// Counts a page that came out of the cache of decoded pages.
    pub fn record_cached_page(&mut self)
        ensures
            *final(self) == (ScanStats {
                block_pages_read: wrapped(old(self).block_pages_read as int, 1),
                block_pages_cached: wrapped(old(self).block_pages_cached as int, 1),
                ..*old(self)
            }),
    {
        self.block_pages_read = self.block_pages_read.wrapping_add(1);
        self.block_pages_cached = self.block_pages_cached.wrapping_add(1);
    }

    /// Counts a block that holds nothing of a selection.
    pub fn record_skipped_block(&mut self)
        ensures
            *final(self) == (ScanStats {
                blocks_skipped: wrapped(old(self).blocks_skipped as int, 1),
                ..*old(self)
            }),
    {
        self.blocks_skipped = self.blocks_skipped.wrapping_add(1);
    }
}

/// All graphs, the catalog entries that name them, and a number that changes
/// with every change of the access policy.
#[derive(Debug)]
pub struct GraphsState {
    pub graphs: SortedMap<String, TableState>,
    pub catalog_graphs: SortedMap<Iid, String>,
    pub security_epoch: u64,
    pub scan_stats: ScanStats,
}

#[verifier::ext_equal]
pub struct StateView {
    pub graphs: Map<Seq<char>, TableView>,
    pub catalog: Map<Iid, Seq<char>>,
    pub security_epoch: u64,
    pub scan_stats: ScanStats,
}

impl View for GraphsState {
    type V = StateView;

    open spec fn view(&self) -> StateView {
        StateView {
            graphs: self.graphs@.map_values(|t: TableState| t@),
            catalog: self.catalog_graphs@.map_values(|n: String| n@),
            security_epoch: self.security_epoch,
            scan_stats: self.scan_stats,
        }
    }
}

impl StateView {
    /// A new database: the default graph and the two reserved ones, empty.
    pub open spec fn initial() -> StateView {
        StateView {
            graphs: Map::<Seq<char>, TableView>::empty().insert(
                DEFAULT_GRAPH@,
                TableView::empty(),
            ).insert(META_GRAPH@, TableView::empty()).insert(SECURITY_GRAPH@, TableView::empty()),
            catalog: Map::empty(),
            security_epoch: 0,
            scan_stats: ScanStats::none(),
        }
    }
}

/// No catalog entry names the default graph or the catalog itself, and both
/// are there.
pub open spec fn reserved_kept(s: StateView) -> bool {
    &&& s.graphs.dom().contains(DEFAULT_GRAPH@)
    &&& s.graphs.dom().contains(META_GRAPH@)
    &&& forall|i: Iid| #[trigger]
        s.catalog.dom().contains(i) ==> s.catalog[i] != DEFAULT_GRAPH@ && s.catalog[i]
            != META_GRAPH@
}

impl GraphsState {
    pub open spec fn wf(&self) -> bool {
        &&& self.graphs.wf()
        &&& self.catalog_graphs.wf()
        &&& forall|g: Seq<char>| #[trigger]
            self.graphs@.dom().contains(g) ==> self.graphs@[g].wf()
        &&& reserved_kept(self@)
    }

    pub fn new() -> (r: GraphsState)
        ensures
            r.wf(),
            r@ == StateView::initial(),
    {
        let mut graphs: SortedMap<String, TableState> = SortedMap::new();
        graphs.insert(DEFAULT_GRAPH.to_owned(), TableState::new());
        graphs.insert(META_GRAPH.to_owned(), TableState::new());
        graphs.insert(SECURITY_GRAPH.to_owned(), TableState::new());
        let r = GraphsState {
            graphs,
            catalog_graphs: SortedMap::new(),
            security_epoch: 0,
            scan_stats: ScanStats::new(),
        };
        proof {
            reveal_strlit("default");
            reveal_strlit("__meta");
            reveal_strlit("__security");
            assert(DEFAULT_GRAPH@ != META_GRAPH@) by {
                assert(DEFAULT_GRAPH@.len() != META_GRAPH@.len());
            }
            assert(META_GRAPH@ != SECURITY_GRAPH@) by {
                assert(META_GRAPH@.len() != SECURITY_GRAPH@.len());
            }
            assert(DEFAULT_GRAPH@ != SECURITY_GRAPH@) by {
                assert(DEFAULT_GRAPH@.len() != SECURITY_GRAPH@.len());
            }
        }
        assert(r@ =~= StateView::initial());
        r
    }

    /// The state of a graph.
    pub fn graph(&self, graph: &str) -> (r: Option<&TableState>)
        requires
            self.wf(),
        ensures
            match r {
                Some(t) => t.wf() && self@.graphs.dom().contains(graph@) && t@
                    == self@.graphs[graph@],
                None => !self@.graphs.dom().contains(graph@),
            },
    {
        self.graphs.get(&graph.to_owned())
    }

    pub fn has_graph(&self, graph: &str) -> (r: bool)
        requires
            self.wf(),
        ensures
            r == self@.graphs.dom().contains(graph@),
    {
        self.graphs.contains_key(&graph.to_owned())
    }

    /// Makes a graph anew, empty; returns whether it was not there.
    pub fn insert_graph(&mut self, graph: String) -> (r: bool)
        requires
            old(self).wf(),
        ensures
            final(self).wf(),
            r == !old(self)@.graphs.dom().contains(graph@),
            final(self)@ == (StateView {
                graphs: old(self)@.graphs.insert(graph@, TableView::empty()),
                ..old(self)@
            }),
    {
        let ghost before = self@;
        let r = self.graphs.insert(graph, TableState::new());
        assert(self@.graphs =~= before.graphs.insert(graph@, TableView::empty()));
        r.is_none()
    }

    /// Takes a graph out. Without the default graph or the catalog the state is
    /// no longer well formed.
    pub fn remove_graph(&mut self, graph: &str) -> (r: Option<TableState>)
        requires
            old(self).wf(),
        ensures
            graph@ != DEFAULT_GRAPH@ && graph@ != META_GRAPH@ ==> final(self).wf(),
            r is Some == old(self)@.graphs.dom().contains(graph@),
            r matches Some(t) ==> t@ == old(self)@.graphs[graph@],
            final(self)@ == (StateView {
                graphs: old(self)@.graphs.remove(graph@),
                ..old(self)@
            }),
    {
        let ghost before = self@;
        let r = self.graphs.remove(&graph.to_owned());
        assert(self@.graphs =~= before.graphs.remove(graph@));
        r
    }

    /// Adds an event to the tail of a table of a graph.
    pub fn append(&mut self, graph: &str, kind: TableKind, event: Event) -> (r: Result<
        (),
        EngineError,
    >)
        requires
            old(self).wf(),
            event.wf(),
        ensures
            final(self).wf(),
            match r {
                Ok(()) => state_appended(old(self)@, graph@, kind, event) == Ok::<
                    StateView,
                    ErrorView,
                >(final(self)@),
                Err(e) => state_appended(old(self)@, graph@, kind, event) == Err::<
                    StateView,
                    ErrorView,
                >(e@) && final(self)@ == old(self)@,
            },
    {
        let ghost before = self@;
        let ghost map0 = self.graphs@;
        let name = graph.to_owned();
        let mut table = match self.graphs.remove(&name) {
            Some(t) => t,
            None => {
                assert(self@.graphs =~= before.graphs);
                return Err(EngineError::UnknownGraph(name));
            },
        };
        let r = table.append(kind, event);
        let ghost after = table@;
        self.graphs.insert(name, table);
        assert(self@.graphs =~= before.graphs.insert(graph@, after));
        assert(before.graphs.insert(graph@, before.graphs[graph@]) =~= before.graphs);
        r
    }

    /// The number of events that no block holds yet, over all graphs.
    pub fn live_rows(&self) -> (r: usize)
        requires
            self.wf(),
        ensures
            r == rows_of(sorted_seq::<String>(self@.graphs.dom()), self@.graphs),
    {
        let n = self.graphs.len();
        let ghost keys = self.graphs.keys();
        let ghost gs = self@.graphs;
        let ghost step = |acc: usize, g: Seq<char>| sat(acc + gs[g].unflushed());
        let mut total: usize = 0;
        let mut i: usize = 0;
        proof {
            lemma_sorted_domain(self.graphs);
            lemma_map_keys_sorted(self.graphs);
            assert(gs.dom() =~= self.graphs@.dom());
            lemma_fold_all(keys, 0usize, step);
        }
        while i < n
            invariant
                i <= n,
                n == keys.len(),
                keys == self.graphs.keys(),
                self.wf(),
                gs == self@.graphs,
                forall|k: int|
                    0 <= k < keys.len() ==> self.graphs@.dom().contains(#[trigger] keys[k])
                        && self.graphs@[keys[k]] == self.graphs.values()[k],
                step == (|acc: usize, g: Seq<char>| sat(acc + gs[g].unflushed())),
                total == fold(keys.subrange(0, i as int), 0usize, step),
            decreases n - i,
        {
            proof {
                lemma_fold_step(keys, 0usize, step, i as int);
                assert(self.graphs@.dom().contains(keys[i as int]));
            }
            total = total.saturating_add(self.graphs.value_at(i).live_rows());
            i += 1;
        }
        proof {
            lemma_fold_all(keys, 0usize, step);
        }
        total
    }
}

/// The unflushed events of a list of graphs, in number; at most what a `usize`
/// holds.
pub open spec fn rows_of(graphs: Seq<Seq<char>>, tables: Map<Seq<char>, TableView>) -> usize {
    fold(graphs, 0usize, |acc: usize, g: Seq<char>| sat(acc + tables[g].unflushed()))
}

/// A state with one more event in the tail of a table.
pub open spec fn state_appended(
    s: StateView,
    graph: Seq<char>,
    kind: TableKind,
    e: Event,
) -> Result<StateView, ErrorView> {
    if !s.graphs.dom().contains(graph) {
        Err(ErrorView::UnknownGraph(graph))
    } else {
        match appended(s.graphs[graph].table(kind).live, e) {
            Err(err) => Err(err),
            Ok(live) => Ok(
                StateView {
                    graphs: s.graphs.insert(graph, s.graphs[graph].with_live(kind, live)),
                    ..s
                },
            ),
        }
    }
}

/// A tail takes an event that is not earlier than its last one, at its end,
/// whatever the event does; an earlier one is refused.
pub proof fn law_tails_take_events_in_order(tail: Seq<Event>, e: Event)
    ensures
        tail.len() == 0 || tail.last().system_from.us <= e.system_from.us ==> appended(tail, e)
            == Ok::<Seq<Event>, ErrorView>(tail.push(e)),
        tail.len() > 0 && tail.last().system_from.us > e.system_from.us ==> appended(tail, e)
            is Err,
{
}

/// An event goes to the live tail of the one table that it is for: the other
/// table of the graph, what is sealed, the blocks and every other graph stay.
pub proof fn law_appending_changes_one_tail(
    s: StateView,
    graph: Seq<char>,
    kind: TableKind,
    e: Event,
)
    requires
        state_appended(s, graph, kind, e) is Ok,
    ensures
        ({
            let w = state_appended(s, graph, kind, e)->Ok_0;
            let a = s.graphs[graph];
            let b = w.graphs[graph];
            &&& s.graphs.dom().contains(graph)
            &&& w.graphs.dom() == s.graphs.dom()
            &&& forall|x: Seq<char>| x != graph ==> #[trigger] w.graphs[x] == s.graphs[x]
            &&& w.catalog == s.catalog
            &&& w.security_epoch == s.security_epoch
            &&& w.scan_stats == s.scan_stats
            &&& b.nodes.live == if kind is Nodes {
                a.nodes.live.push(e)
            } else {
                a.nodes.live
            }
            &&& b.edges.live == if kind is Edges {
                a.edges.live.push(e)
            } else {
                a.edges.live
            }
            &&& b.nodes.sealed == a.nodes.sealed
            &&& b.edges.sealed == a.edges.sealed
            &&& b.nodes.tries == a.nodes.tries
            &&& b.edges.tries == a.edges.tries
            &&& b.adj_out == a.adj_out
            &&& b.adj_in == a.adj_in
        }),
{
    let w = state_appended(s, graph, kind, e)->Ok_0;
    assert(w.graphs.dom() =~= s.graphs.dom());
}

/// A new database has the default graph, the catalog and the policy, all empty.
pub proof fn law_new_databases_are_empty(g: Seq<char>)
    ensures
        StateView::initial().graphs.dom().contains(g) <==> g == "default"@ || g == "__meta"@ || g
            == "__security"@,
        StateView::initial().graphs.dom().contains(g) ==> {
            let t = StateView::initial().graphs[g];
            &&& t.nodes.live.len() == 0
            &&& t.nodes.sealed is None
            &&& t.nodes.tries.len() == 0
            &&& t.edges.live.len() == 0
            &&& t.edges.sealed is None
            &&& t.edges.tries.len() == 0
            &&& t.adj_out.len() == 0
            &&& t.adj_in.len() == 0
        },
{
}

/// The unflushed events of a table are those of its live and of its sealed
/// tail.
pub proof fn law_unflushed_counts_both_tails(t: TableView)
    ensures
        t.unflushed() == t.nodes.live.len() + t.edges.live.len() + (match t.nodes.sealed {
            Some(s) => s.len() as int,
            None => 0,
        }) + (match t.edges.sealed {
            Some(s) => s.len() as int,
            None => 0,
        }),
{
}

} // verus!
