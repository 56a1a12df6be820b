//! Writing a block: the unflushed tails are sealed, encoded and stored, then a
//! manifest that names them is stored, and only then the state lists them.

use crate::commit::WriterCore;
use crate::error::EngineError;
use crate::event::{clone_events, events_wf, Event};
use crate::fold::{fold, lemma_fold_all, lemma_fold_step};
use crate::sorted::{lemma_ascending_index, lemma_map_keys_sorted, lemma_sorted_domain, sorted_seq};
use crate::state::{
    last_time, wrapped, CoreView, GraphsState, LiveTable, PageMeta, PersistedTrie, StateView,
    TableCore, TableState, TableView, TrieEntry, EDGES_TABLE, NODES_TABLE,
};
use crate::text::{lemma_views_push, views};
use crate::types::LogPosition;
use vstd::prelude::*;

verus! {

/// The family of the edges ordered by their source.
pub const ADJ_OUT: &'static str = "adj-out";

/// The family of the edges ordered by their destination.
pub const ADJ_IN: &'static str = "adj-in";

/// One graph's share of a flush: its sealed tails, and the blocks it had.
pub struct GraphSeal {
    pub graph: String,
    pub nodes: Option<Vec<Event>>,
    pub edges: Option<Vec<Event>>,
    pub prior_nodes: Vec<TrieEntry>,
    pub prior_edges: Vec<TrieEntry>,
    pub prior_adj_out: Vec<TrieEntry>,
    pub prior_adj_in: Vec<TrieEntry>,
}

/// What a flush works on once the tails are sealed.
pub struct FlushJob {
    pub block_id: u64,
    /// The end of the log that the sealed tails cover.
    pub watermark: LogPosition,
    pub max_tx_id: u64,
    pub max_system_us: i64,
    pub graphs: Vec<GraphSeal>,
}

/// A table whose tail is sealed: the live tail becomes the sealed one, unless
/// one is sealed already.
pub open spec fn sealed_core(c: CoreView) -> CoreView {
    if c.sealed is None && c.live.len() > 0 {
        CoreView { live: Seq::empty(), sealed: Some(c.live), tries: c.tries }
    } else {
        c
    }
}

pub open spec fn sealed_table(t: TableView) -> TableView {
    TableView { nodes: sealed_core(t.nodes), edges: sealed_core(t.edges), ..t }
}

/// The state with every tail sealed.
pub open spec fn sealed_state(s: StateView) -> StateView {
    StateView { graphs: s.graphs.map_values(|t: TableView| sealed_table(t)), ..s }
}

/// The manifest entries of a list of blocks.
pub open spec fn entries(tries: Seq<PersistedTrie>) -> Seq<TrieEntry> {
    tries.map_values(|t: PersistedTrie| t.entry)
}

/// A copy of the sealed tail of a table.
pub open spec fn tail_of(tail: Option<Vec<Event>>, c: CoreView) -> bool {
    match c.sealed {
        Some(s) => tail matches Some(v) && views(v@) == views(s) && events_wf(v@),
        None => tail is None,
    }
}

/// The share of a flush of a graph whose tails are sealed.
pub open spec fn seal_of(seal: GraphSeal, graph: Seq<char>, t: TableView) -> bool {
    &&& seal.graph@ == graph
    &&& tail_of(seal.nodes, t.nodes)
    &&& tail_of(seal.edges, t.edges)
    &&& seal.prior_nodes@ == entries(t.nodes.tries)
    &&& seal.prior_edges@ == entries(t.edges.tries)
    &&& seal.prior_adj_out@ == entries(t.adj_out)
    &&& seal.prior_adj_in@ == entries(t.adj_in)
}

/// Whether a graph has a sealed tail.
pub open spec fn has_sealed(t: TableView) -> bool {
    t.nodes.sealed is Some || t.edges.sealed is Some
}

/// The later of a time and that of the last event of a sealed tail.
pub open spec fn time_with(at: i64, c: CoreView) -> i64 {
    match c.sealed {
        None => at,
        Some(s) => {
            let last = match last_time(s) {
                Some(t) => t.us,
                None => 0i64,
            };
            if last > at {
                last
            } else {
                at
            }
        },
    }
}

/// The latest time in the sealed tails of a list of graphs; at least 0.
pub open spec fn latest_time(graphs: Seq<Seq<char>>, tables: Map<Seq<char>, TableView>) -> i64 {
    fold(
        graphs,
        0i64,
        |at: i64, g: Seq<char>| time_with(time_with(at, tables[g].nodes), tables[g].edges),
    )
}

fn entries_of(tries: &Vec<PersistedTrie>) -> (r: Vec<TrieEntry>)
    ensures
        r@ == entries(tries@),
{
    let mut r: Vec<TrieEntry> = Vec::new();
    let mut i: usize = 0;
    while i < tries.len()
        invariant
            i <= tries.len(),
            r@ == entries(tries@).subrange(0, i as int),
        decreases tries.len() - i,
    {
        r.push(tries[i].entry.clone_entry());
        assert(r@ =~= entries(tries@).subrange(0, i + 1));
        i += 1;
    }
    r
}

/// Seals the tail of a table; returns a copy of the sealed tail.
fn seal_core(core: &mut TableCore, at: &mut i64) -> (r: Option<Vec<Event>>)
    requires
        old(core).wf(),
    ensures
        final(core).wf(),
        final(core)@ == sealed_core(old(core)@),
        tail_of(r, final(core)@),
        *final(at) == time_with(*old(at), final(core)@),
{
    if core.sealed.is_none() && core.live.event_count() > 0 {
        let mut tail = LiveTable::new();
        std::mem::swap(&mut tail, &mut core.live);
        core.sealed = Some(tail);
    }
    match &core.sealed {
        None => None,
        Some(tail) => {
            let last: i64 = match tail.last_system_from() {
                Some(t) => t.us,
                None => 0,
            };
            if last > *at {
                *at = last;
            }
            Some(clone_events(&tail.events))
        },
    }
}

fn seal_table(graph: &String, table: &mut TableState, at: &mut i64) -> (r: GraphSeal)
    requires
        old(table).wf(),
    ensures
        final(table).wf(),
        final(table)@ == sealed_table(old(table)@),
        seal_of(r, graph@, final(table)@),
        *final(at) == time_with(
            time_with(*old(at), final(table)@.nodes),
            final(table)@.edges,
        ),
{
    let nodes = seal_core(&mut table.nodes, at);
    let edges = seal_core(&mut table.edges, at);
    GraphSeal {
        graph: graph.clone(),
        nodes,
        edges,
        prior_nodes: entries_of(&table.nodes.tries),
        prior_edges: entries_of(&table.edges.tries),
        prior_adj_out: entries_of(&table.adj_out),
        prior_adj_in: entries_of(&table.adj_in),
    }
}

/// Some graph of a state has a sealed tail.
pub open spec fn is_dirty(s: StateView) -> bool {
    exists|g: Seq<char>| #[trigger] s.graphs.dom().contains(g) && has_sealed(s.graphs[g])
}

impl WriterCore {
    /// Seals every non-empty live tail and reserves the number of the block. A
    /// table whose last flush failed has its sealed tail still and is tried
    /// again as it is. Nothing is reserved where nothing is unflushed.
    pub fn seal(&mut self) -> (r: Option<FlushJob>)
        requires
            old(self).state.wf(),
            old(self).next_block_id < u64::MAX,
        ensures
            final(self).state.wf(),
            final(self).state@ == sealed_state(old(self).state@),
            final(self).next_tx_id == old(self).next_tx_id,
            final(self).durable_watermark == old(self).durable_watermark,
            final(self).progress == old(self).progress,
            final(self).metrics == old(self).metrics,
            r is Some == is_dirty(final(self).state@),
            final(self).next_block_id == old(self).next_block_id + (if r is Some {
                1int
            } else {
                0
            }),
            r matches Some(job) ==> {
                let names = sorted_seq::<String>(old(self).state@.graphs.dom());
                &&& job.block_id == old(self).next_block_id
                &&& job.watermark == old(self).durable_watermark
                &&& job.max_tx_id == old(self).next_tx_id
                &&& job.max_system_us == latest_time(names, final(self).state@.graphs)
                &&& job.graphs@.len() == names.len()
                &&& forall|i: int|
                    0 <= i < names.len() ==> seal_of(
                        #[trigger] job.graphs@[i],
                        names[i],
                        final(self).state@.graphs[names[i]],
                    )
            },
    {
        let ghost start = self.state@;
        let ghost target = sealed_state(self.state@);
        let n = self.state.graphs.len();
        let ghost names = self.state.graphs.keys();
        let ghost step = |at: i64, g: Seq<char>|
            time_with(time_with(at, target.graphs[g].nodes), target.graphs[g].edges);
        let mut graphs: Vec<GraphSeal> = Vec::new();
        let mut at: i64 = 0;
        let mut dirty = false;
        let mut i: usize = 0;
        proof {
            lemma_sorted_domain(self.state.graphs);
            lemma_map_keys_sorted(self.state.graphs);
            assert(start.graphs.dom() =~= self.state.graphs@.dom());
            lemma_fold_all(names, 0i64, step);
            if names.len() > 0 {
                lemma_ascending_index::<String>(names, 0);
            }
        }
        while i < n
            invariant
                i <= n,
                n == names.len(),
                self.state.wf(),
                names == self.state.graphs.keys(),
                names == sorted_seq::<String>(start.graphs.dom()),
                start == old(self).state@,
                target == sealed_state(start),
                self.state@.graphs.dom() == start.graphs.dom(),
                start.graphs.dom() == names.to_set(),
                self.state@.catalog == start.catalog,
                self.state@.security_epoch == start.security_epoch,
                self.state@.scan_stats == start.scan_stats,
                forall|k: int, j: int|
                    0 <= k < j < names.len() ==> #[trigger] names[k] != #[trigger] names[j],
                forall|k: int|
                    0 <= k < i ==> self.state@.graphs[#[trigger] names[k]]
                        == target.graphs[names[k]],
                forall|k: int|
                    i <= k < n ==> self.state@.graphs[#[trigger] names[k]]
                        == start.graphs[names[k]],
                graphs@.len() == i,
                forall|k: int|
                    0 <= k < i ==> seal_of(
                        #[trigger] graphs@[k],
                        names[k],
                        target.graphs[names[k]],
                    ),
                step == (|at: i64, g: Seq<char>|
                    time_with(time_with(at, target.graphs[g].nodes), target.graphs[g].edges)),
                at == fold(names.subrange(0, i as int), 0i64, step),
                dirty == exists|k: int|
                    0 <= k < i && has_sealed(target.graphs[#[trigger] names[k]]),
                self.next_tx_id == old(self).next_tx_id,
                self.next_block_id == old(self).next_block_id,
                self.durable_watermark == old(self).durable_watermark,
                self.progress == old(self).progress,
                self.metrics == old(self).metrics,
            decreases n - i,
        {
            let ghost map0 = self.state.graphs@;
            let ghost view0 = self.state@;
            let name = self.state.graphs.key_at(i).clone();
            proof {
                lemma_sorted_domain(self.state.graphs);
                lemma_fold_step(names, 0i64, step, i as int);
                assert(names[i as int] == name@);
                assert(view0.graphs.dom().contains(name@));
            }
            match self.state.graphs.remove(&name) {
                Some(mut table) => {
                    let seal = seal_table(&name, &mut table, &mut at);
                    if seal.nodes.is_some() || seal.edges.is_some() {
                        dirty = true;
                        assert(has_sealed(target.graphs[names[i as int]]));
                    }
                    graphs.push(seal);
                    let ghost t = table;
                    self.state.graphs.insert(name, table);
                    proof {
                        assert(self.state.graphs@ =~= map0.insert(name@, t));
                        assert(self.state@.graphs =~= view0.graphs.insert(name@, t@));
                        assert(self.state.graphs@.dom() =~= map0.dom());
                        lemma_map_keys_sorted(self.state.graphs);
                        assert(self.state@.graphs.dom() =~= start.graphs.dom());
                        assert(start.graphs.dom() =~= self.state.graphs@.dom());
                    }
                },
                None => {
                    assert(false);
                },
            }
            i += 1;
        }
        proof {
            lemma_fold_all(names, 0i64, step);
            assert forall|g: Seq<char>| #[trigger]
                self.state@.graphs.dom().contains(g) implies self.state@.graphs[g]
                == target.graphs[g] by {
                assert(names.to_set().contains(g));
                let k = names.index_of(g);
                assert(names[k] == g);
            }
            assert(self.state@.graphs =~= target.graphs);
            assert(self.state@ =~= target);
            if dirty {
                let k = choose|k: int|
                    0 <= k < n && has_sealed(target.graphs[#[trigger] names[k]]);
                assert(names.to_set().contains(names[k]));
                assert(self.state@.graphs.dom().contains(names[k]));
            } else if is_dirty(self.state@) {
                let g = choose|g: Seq<char>| #[trigger]
                    self.state@.graphs.dom().contains(g) && has_sealed(self.state@.graphs[g]);
                let k = names.index_of(g);
                assert(has_sealed(target.graphs[names[k]]));
            }
        }
        if !dirty {
            return None;
        }
        let block_id = self.next_block_id;
        self.next_block_id = self.next_block_id + 1;
        Some(
            FlushJob {
                block_id,
                watermark: self.durable_watermark,
                max_tx_id: self.next_tx_id,
                max_system_us: at,
                graphs,
            },
        )
    }
}

/// The events of a table that no block holds, in order.
pub open spec fn unflushed_events(c: CoreView) -> Seq<Event> {
    match c.sealed {
        Some(s) => s + c.live,
        None => c.live,
    }
}

/// Sealing hides nothing: a table holds the same events in the same order, and
/// the same blocks.
pub proof fn law_sealing_hides_nothing(c: CoreView)
    ensures
        unflushed_events(sealed_core(c)) == unflushed_events(c),
        sealed_core(c).tries == c.tries,
        sealed_core(c).unflushed() == c.unflushed(),
{
    assert(c.live + Seq::<Event>::empty() =~= c.live);
}

/// Sealing again, as after a failed flush, changes nothing while no new event
/// has come.
pub proof fn law_sealing_twice(c: CoreView)
    ensures
        sealed_core(sealed_core(c)) == sealed_core(c),
{
}

/// How the rows of a block are ordered.
#[derive(Clone, Copy, Debug, PartialEq, Eq, Structural)]
pub enum SortOrder {
    ByIid,
    BySrc,
    ByDst,
}

/// The four inventories of a graph.
#[derive(Clone, Copy, Debug, PartialEq, Eq, Structural)]
pub enum Slot {
    Nodes,
    Edges,
    AdjOut,
    AdjIn,
}

impl Slot {
    pub open spec fn table_spec(self) -> Seq<char> {
        match self {
            Slot::Nodes => NODES_TABLE@,
            _ => EDGES_TABLE@,
        }
    }

    pub open spec fn family_spec(self) -> Seq<char> {
        match self {
            Slot::AdjOut => ADJ_OUT@,
            Slot::AdjIn => ADJ_IN@,
            _ => ""@,
        }
    }

    pub open spec fn order_spec(self) -> SortOrder {
        match self {
            Slot::Nodes | Slot::Edges => SortOrder::ByIid,
            Slot::AdjOut => SortOrder::BySrc,
            Slot::AdjIn => SortOrder::ByDst,
        }
    }

    /// The table whose rows the inventory holds.
    pub fn table(self) -> (r: &'static str)
        ensures
            r@ == self.table_spec(),
    {
        match self {
            Slot::Nodes => NODES_TABLE,
            _ => EDGES_TABLE,
        }
    }

    /// The adjacency family of the inventory; empty for a table itself.
    pub fn family(self) -> (r: &'static str)
        ensures
            r@ == self.family_spec(),
    {
        match self {
            Slot::AdjOut => ADJ_OUT,
            Slot::AdjIn => ADJ_IN,
            _ => "",
        }
    }

    /// The order of the rows in the inventory's blocks.
    pub fn order(self) -> (r: SortOrder)
        ensures
            r == self.order_spec(),
    {
        match self {
            Slot::Nodes | Slot::Edges => SortOrder::ByIid,
            Slot::AdjOut => SortOrder::BySrc,
            Slot::AdjIn => SortOrder::ByDst,
        }
    }
}

/// A tail that is to be encoded into a block.
#[derive(Clone, Copy, Debug, PartialEq, Eq, Structural)]
pub struct EncodeTask {
    pub graph: usize,
    pub slot: Slot,
}

/// Whether a graph's share of a flush gives a block for an inventory. The edges
/// give three.
pub open spec fn gives_block(seal: GraphSeal, slot: Slot) -> bool {
    match slot {
        Slot::Nodes => seal.nodes is Some,
        _ => seal.edges is Some,
    }
}

/// The blocks that a graph's share gives.
pub open spec fn graph_tasks(graph: int, seal: GraphSeal) -> Seq<EncodeTask> {
    let g = graph as usize;
    (if seal.nodes is Some {
        seq![EncodeTask { graph: g, slot: Slot::Nodes }]
    } else {
        Seq::empty()
    }) + (if seal.edges is Some {
        seq![
            EncodeTask { graph: g, slot: Slot::Edges },
            EncodeTask { graph: g, slot: Slot::AdjOut },
            EncodeTask { graph: g, slot: Slot::AdjIn },
        ]
    } else {
        Seq::empty()
    })
}

/// The blocks that the first `n` graphs give.
pub open spec fn tasks_upto(seals: Seq<GraphSeal>, n: int) -> Seq<EncodeTask>
    decreases n,
{
    if n <= 0 {
        Seq::empty()
    } else {
        tasks_upto(seals, n - 1) + graph_tasks(n - 1, seals[n - 1])
    }
}

/// What a flush encodes, in order.
pub fn encode_all(job: &FlushJob) -> (r: Vec<EncodeTask>)
    ensures
        r@ == tasks_upto(job.graphs@, job.graphs@.len() as int),
{
    let mut r: Vec<EncodeTask> = Vec::new();
    let mut i: usize = 0;
    while i < job.graphs.len()
        invariant
            i <= job.graphs.len(),
            r@ == tasks_upto(job.graphs@, i as int),
        decreases job.graphs.len() - i,
    {
        let ghost before = r@;
        let seal = &job.graphs[i];
        if seal.nodes.is_some() {
            r.push(EncodeTask { graph: i, slot: Slot::Nodes });
        }
        if seal.edges.is_some() {
            r.push(EncodeTask { graph: i, slot: Slot::Edges });
            r.push(EncodeTask { graph: i, slot: Slot::AdjOut });
            r.push(EncodeTask { graph: i, slot: Slot::AdjIn });
        }
        assert(r@ =~= before + graph_tasks(i as int, *seal));
        i += 1;
    }
    r
}

/// A block as it is stored, and the indexes beside it.
pub struct EncodedBlock {
    pub data: Vec<u8>,
    pub meta: Vec<u8>,
    pub pages: Vec<PageMeta>,
    pub labels: Vec<u8>,
    pub keys: Vec<u8>,
    pub props: Vec<u8>,
}

/// The blocks of one graph.
pub struct GraphEncoded {
    pub graph: String,
    pub nodes: Option<EncodedBlock>,
    pub edges: Option<EncodedBlock>,
    pub adj_out: Option<EncodedBlock>,
    pub adj_in: Option<EncodedBlock>,
}

impl GraphEncoded {
    pub open spec fn block(self, slot: Slot) -> Option<EncodedBlock> {
        match slot {
            Slot::Nodes => self.nodes,
            Slot::Edges => self.edges,
            Slot::AdjOut => self.adj_out,
            Slot::AdjIn => self.adj_in,
        }
    }

    fn block_ref(&self, slot: Slot) -> (r: &Option<EncodedBlock>)
        ensures
            *r == self.block(slot),
    {
        match slot {
            Slot::Nodes => &self.nodes,
            Slot::Edges => &self.edges,
            Slot::AdjOut => &self.adj_out,
            Slot::AdjIn => &self.adj_in,
        }
    }
}

impl GraphSeal {
    pub open spec fn prior(self, slot: Slot) -> Seq<TrieEntry> {
        match slot {
            Slot::Nodes => self.prior_nodes@,
            Slot::Edges => self.prior_edges@,
            Slot::AdjOut => self.prior_adj_out@,
            Slot::AdjIn => self.prior_adj_in@,
        }
    }

    fn prior_ref(&self, slot: Slot) -> (r: &Vec<TrieEntry>)
        ensures
            r@ == self.prior(slot),
    {
        match slot {
            Slot::Nodes => &self.prior_nodes,
            Slot::Edges => &self.prior_edges,
            Slot::AdjOut => &self.prior_adj_out,
            Slot::AdjIn => &self.prior_adj_in,
        }
    }
}

/// The blocks are those that the flush asked for.
pub open spec fn encoded_fits(seals: Seq<GraphSeal>, encoded: Seq<GraphEncoded>) -> bool {
    &&& encoded.len() == seals.len()
    &&& forall|i: int|
        0 <= i < seals.len() ==> (#[trigger] encoded[i]).graph@ == seals[i].graph@
    &&& forall|i: int, slot: Slot|
        0 <= i < seals.len() ==> (#[trigger] encoded[i].block(slot) is Some <==> gives_block(
            seals[i],
            slot,
        ))
}

/// The parts of a block that are stored as objects of their own.
#[derive(Clone, Copy, Debug, PartialEq, Eq, Structural)]
pub enum BlockPart {
    Data,
    Meta,
    Labels,
    Keys,
    Props,
}

/// One object that a flush stores.
#[derive(Clone, Copy, Debug, PartialEq, Eq, Structural)]
pub struct Put {
    pub graph: usize,
    pub slot: Slot,
    pub part: BlockPart,
}

/// The objects of one block, in the order in which they are stored.
pub open spec fn slot_puts(graph: int, slot: Slot, block: Option<EncodedBlock>) -> Seq<Put> {
    let g = graph as usize;
    if block is None {
        Seq::empty()
    } else {
        match slot {
            Slot::Nodes | Slot::Edges => seq![
                Put { graph: g, slot, part: BlockPart::Data },
                Put { graph: g, slot, part: BlockPart::Meta },
                Put { graph: g, slot, part: BlockPart::Labels },
                Put { graph: g, slot, part: BlockPart::Keys },
                Put { graph: g, slot, part: BlockPart::Props },
            ],
            Slot::AdjOut | Slot::AdjIn => seq![
                Put { graph: g, slot, part: BlockPart::Data },
                Put { graph: g, slot, part: BlockPart::Meta },
                Put { graph: g, slot, part: BlockPart::Keys },
            ],
        }
    }
}

pub open spec fn graph_puts(graph: int, enc: GraphEncoded) -> Seq<Put> {
    slot_puts(graph, Slot::Nodes, enc.nodes) + slot_puts(graph, Slot::Edges, enc.edges)
        + slot_puts(graph, Slot::AdjOut, enc.adj_out) + slot_puts(graph, Slot::AdjIn, enc.adj_in)
}

/// The objects of the first `n` graphs.
pub open spec fn puts_upto(encoded: Seq<GraphEncoded>, n: int) -> Seq<Put>
    decreases n,
{
    if n <= 0 {
        Seq::empty()
    } else {
        puts_upto(encoded, n - 1) + graph_puts(n - 1, encoded[n - 1])
    }
}

fn push_slot(out: &mut Vec<Put>, graph: usize, slot: Slot, block: &Option<EncodedBlock>)
    ensures
        final(out)@ == old(out)@ + slot_puts(graph as int, slot, *block),
{
    if block.is_none() {
        assert(out@ + slot_puts(graph as int, slot, *block) =~= out@);
        return ;
    }
    let ghost before = out@;
    let primary = match slot {
        Slot::Nodes | Slot::Edges => true,
        Slot::AdjOut | Slot::AdjIn => false,
    };
    out.push(Put { graph, slot, part: BlockPart::Data });
    out.push(Put { graph, slot, part: BlockPart::Meta });
    if primary {
        out.push(Put { graph, slot, part: BlockPart::Labels });
    }
    out.push(Put { graph, slot, part: BlockPart::Keys });
    if primary {
        out.push(Put { graph, slot, part: BlockPart::Props });
    }
    assert(out@ =~= before + slot_puts(graph as int, slot, *block));
}

fn plan_puts(encoded: &Vec<GraphEncoded>) -> (r: Vec<Put>)
    ensures
        r@ == puts_upto(encoded@, encoded@.len() as int),
{
    let mut r: Vec<Put> = Vec::new();
    let mut i: usize = 0;
    while i < encoded.len()
        invariant
            i <= encoded.len(),
            r@ == puts_upto(encoded@, i as int),
        decreases encoded.len() - i,
    {
        let ghost before = r@;
        let enc = &encoded[i];
        push_slot(&mut r, i, Slot::Nodes, &enc.nodes);
        push_slot(&mut r, i, Slot::Edges, &enc.edges);
        push_slot(&mut r, i, Slot::AdjOut, &enc.adj_out);
        push_slot(&mut r, i, Slot::AdjIn, &enc.adj_in);
        assert(r@ =~= before + graph_puts(i as int, *enc));
        i += 1;
    }
    r
}

/// The rows of a block, in number; the count wraps around.
pub open spec fn row_sum(pages: Seq<PageMeta>) -> u64 {
    fold(pages, 0u64, |n: u64, p: PageMeta| wrapped(n as int, p.rows as int))
}

pub fn count_rows(pages: &Vec<PageMeta>) -> (r: u64)
    ensures
        r == row_sum(pages@),
{
    let ghost step = |n: u64, p: PageMeta| wrapped(n as int, p.rows as int);
    let mut n: u64 = 0;
    let mut i: usize = 0;
    proof {
        lemma_fold_all(pages@, 0u64, step);
    }
    while i < pages.len()
        invariant
            i <= pages.len(),
            step == (|n: u64, p: PageMeta| wrapped(n as int, p.rows as int)),
            n == fold(pages@.subrange(0, i as int), 0u64, step),
        decreases pages.len() - i,
    {
        proof {
            lemma_fold_step(pages@, 0u64, step, i as int);
        }
        n = n.wrapping_add(pages[i].rows);
        i += 1;
    }
    proof {
        lemma_fold_all(pages@, 0u64, step);
    }
    n
}

/// The manifest entry of a block.
pub open spec fn entry_of(trie_key: String, block: EncodedBlock) -> TrieEntry {
    TrieEntry { trie_key, row_count: row_sum(block.pages@), data_len: block.data@.len() as u64 }
}

fn make_entry(trie_key: &String, block: &EncodedBlock) -> (r: TrieEntry)
    ensures
        r == entry_of(*trie_key, *block),
{
    TrieEntry {
        trie_key: trie_key.clone(),
        row_count: count_rows(&block.pages),
        data_len: block.data.len() as u64,
    }
}

/// The blocks of one inventory of a graph, as a manifest lists them.
#[derive(Debug)]
pub struct TableTries {
    pub graph: String,
    pub table: String,
    pub family: String,
    pub tries: Vec<TrieEntry>,
}

#[verifier::ext_equal]
pub struct TableTriesView {
    pub graph: Seq<char>,
    pub table: Seq<char>,
    pub family: Seq<char>,
    pub tries: Seq<TrieEntry>,
}

impl View for TableTries {
    type V = TableTriesView;

    open spec fn view(&self) -> TableTriesView {
        TableTriesView {
            graph: self.graph@,
            table: self.table@,
            family: self.family@,
            tries: self.tries@,
        }
    }
}

/// All that is persisted, at one moment: every block of every graph, and how
/// much of the log they cover.
#[derive(Debug)]
pub struct BlockManifest {
    pub block_id: u64,
    pub watermark: u64,
    pub max_tx_id: u64,
    pub max_system_time_us: i64,
    pub tables: Vec<TableTries>,
}

/// The blocks of an inventory after a flush.
pub open spec fn tries_after(
    seal: GraphSeal,
    enc: GraphEncoded,
    slot: Slot,
    trie_key: String,
) -> Seq<TrieEntry> {
    match enc.block(slot) {
        Some(block) => seal.prior(slot).push(entry_of(trie_key, block)),
        None => seal.prior(slot),
    }
}

/// What a manifest says of an inventory; nothing of an empty one.
pub open spec fn slot_tables(
    seal: GraphSeal,
    enc: GraphEncoded,
    slot: Slot,
    trie_key: String,
) -> Seq<TableTriesView> {
    let tries = tries_after(seal, enc, slot, trie_key);
    if tries.len() == 0 {
        Seq::empty()
    } else {
        seq![
            TableTriesView {
                graph: seal.graph@,
                table: slot.table_spec(),
                family: slot.family_spec(),
                tries,
            },
        ]
    }
}

pub open spec fn graph_tables(seal: GraphSeal, enc: GraphEncoded, trie_key: String) -> Seq<
    TableTriesView,
> {
    slot_tables(seal, enc, Slot::Nodes, trie_key) + slot_tables(seal, enc, Slot::Edges, trie_key)
        + slot_tables(seal, enc, Slot::AdjOut, trie_key) + slot_tables(
        seal,
        enc,
        Slot::AdjIn,
        trie_key,
    )
}

/// What a manifest says of the first `n` graphs.
pub open spec fn tables_upto(
    seals: Seq<GraphSeal>,
    encoded: Seq<GraphEncoded>,
    trie_key: String,
    n: int,
) -> Seq<TableTriesView>
    decreases n,
{
    if n <= 0 {
        Seq::empty()
    } else {
        tables_upto(seals, encoded, trie_key, n - 1) + graph_tables(
            seals[n - 1],
            encoded[n - 1],
            trie_key,
        )
    }
}

/// The manifest of a flush.
pub open spec fn is_manifest(
    m: BlockManifest,
    job: FlushJob,
    encoded: Seq<GraphEncoded>,
    trie_key: String,
) -> bool {
    &&& m.block_id == job.block_id
    &&& m.watermark == job.watermark.packed
    &&& m.max_tx_id == job.max_tx_id
    &&& m.max_system_time_us == job.max_system_us
    &&& views(m.tables@) == tables_upto(
        job.graphs@,
        encoded,
        trie_key,
        job.graphs@.len() as int,
    )
}

pub fn clone_entries(tries: &Vec<TrieEntry>) -> (r: Vec<TrieEntry>)
    ensures
        r@ == tries@,
{
    let mut r: Vec<TrieEntry> = Vec::new();
    let mut i: usize = 0;
    while i < tries.len()
        invariant
            i <= tries.len(),
            r@ == tries@.subrange(0, i as int),
        decreases tries.len() - i,
    {
        r.push(tries[i].clone_entry());
        assert(r@ =~= tries@.subrange(0, i + 1));
        i += 1;
    }
    assert(r@ =~= tries@);
    r
}

fn push_tables(
    out: &mut Vec<TableTries>,
    seal: &GraphSeal,
    enc: &GraphEncoded,
    slot: Slot,
    trie_key: &String,
)
    ensures
        views(final(out)@) == views(old(out)@) + slot_tables(*seal, *enc, slot, *trie_key),
{
    let mut tries = clone_entries(seal.prior_ref(slot));
    match enc.block_ref(slot) {
        Some(block) => {
            tries.push(make_entry(trie_key, block));
        },
        None => {},
    }
    let ghost before = out@;
    if tries.len() > 0 {
        let t = TableTries {
            graph: seal.graph.clone(),
            table: slot.table().to_owned(),
            family: slot.family().to_owned(),
            tries,
        };
        proof {
            lemma_views_push(before, t);
        }
        out.push(t);
        assert(views(out@) =~= views(before) + slot_tables(*seal, *enc, slot, *trie_key));
    } else {
        assert(views(out@) + slot_tables(*seal, *enc, slot, *trie_key) =~= views(out@));
    }
}

/// The manifest that names every block there was and every new one.
pub fn flush_manifest(job: &FlushJob, encoded: &Vec<GraphEncoded>, trie_key: &String) -> (r:
    BlockManifest)
    requires
        encoded_fits(job.graphs@, encoded@),
    ensures
        is_manifest(r, *job, encoded@, *trie_key),
        r.block_id == job.block_id,
        r.watermark == job.watermark.packed,
        r.max_tx_id == job.max_tx_id,
        r.max_system_time_us == job.max_system_us,
{
    let mut tables: Vec<TableTries> = Vec::new();
    let mut i: usize = 0;
    assert(views(tables@) =~= Seq::<TableTriesView>::empty());
    while i < job.graphs.len()
        invariant
            i <= job.graphs.len(),
            encoded_fits(job.graphs@, encoded@),
            views(tables@) == tables_upto(job.graphs@, encoded@, *trie_key, i as int),
        decreases job.graphs.len() - i,
    {
        let ghost before = views(tables@);
        let seal = &job.graphs[i];
        let enc = &encoded[i];
        push_tables(&mut tables, seal, enc, Slot::Nodes, trie_key);
        push_tables(&mut tables, seal, enc, Slot::Edges, trie_key);
        push_tables(&mut tables, seal, enc, Slot::AdjOut, trie_key);
        push_tables(&mut tables, seal, enc, Slot::AdjIn, trie_key);
        assert(views(tables@) =~= before + graph_tables(*seal, *enc, *trie_key));
        i += 1;
    }
    BlockManifest {
        block_id: job.block_id,
        watermark: job.watermark.as_u64(),
        max_tx_id: job.max_tx_id,
        max_system_time_us: job.max_system_us,
        tables,
    }
}

/// The block as the state lists it.
pub open spec fn trie_of(trie_key: String, block: EncodedBlock, slot: Slot) -> PersistedTrie {
    let primary = slot == Slot::Nodes || slot == Slot::Edges;
    PersistedTrie {
        entry: entry_of(trie_key, block),
        pages: block.pages,
        labels: if primary {
            Some(block.labels)
        } else {
            None
        },
        keys: Some(block.keys),
        props: if primary {
            Some(block.props)
        } else {
            None
        },
    }
}

fn make_trie(trie_key: &String, block: EncodedBlock, primary: bool) -> (r: PersistedTrie)
    ensures
        primary ==> r == trie_of(*trie_key, block, Slot::Nodes) && r == trie_of(
            *trie_key,
            block,
            Slot::Edges,
        ),
        !primary ==> r == trie_of(*trie_key, block, Slot::AdjOut) && r == trie_of(
            *trie_key,
            block,
            Slot::AdjIn,
        ),
{
    let entry = make_entry(trie_key, &block);
    PersistedTrie {
        entry,
        pages: block.pages,
        labels: if primary {
            Some(block.labels)
        } else {
            None
        },
        keys: Some(block.keys),
        props: if primary {
            Some(block.props)
        } else {
            None
        },
    }
}

/// A table whose sealed tail has become a block.
pub open spec fn core_committed(
    c: CoreView,
    block: Option<EncodedBlock>,
    slot: Slot,
    trie_key: String,
) -> CoreView {
    match block {
        Some(b) => CoreView {
            live: c.live,
            sealed: None,
            tries: c.tries.push(trie_of(trie_key, b, slot)),
        },
        None => c,
    }
}

pub open spec fn family_committed(
    tries: Seq<PersistedTrie>,
    block: Option<EncodedBlock>,
    slot: Slot,
    trie_key: String,
) -> Seq<PersistedTrie> {
    match block {
        Some(b) => tries.push(trie_of(trie_key, b, slot)),
        None => tries,
    }
}

pub open spec fn table_committed(t: TableView, enc: GraphEncoded, trie_key: String) -> TableView {
    TableView {
        nodes: core_committed(t.nodes, enc.nodes, Slot::Nodes, trie_key),
        edges: core_committed(t.edges, enc.edges, Slot::Edges, trie_key),
        adj_out: family_committed(t.adj_out, enc.adj_out, Slot::AdjOut, trie_key),
        adj_in: family_committed(t.adj_in, enc.adj_in, Slot::AdjIn, trie_key),
    }
}

/// The state after the new blocks of a graph are listed. A graph that is gone
/// by now is passed over.
pub open spec fn graph_committed(s: StateView, enc: GraphEncoded, trie_key: String) -> StateView {
    if s.graphs.dom().contains(enc.graph@) {
        StateView {
            graphs: s.graphs.insert(
                enc.graph@,
                table_committed(s.graphs[enc.graph@], enc, trie_key),
            ),
            ..s
        }
    } else {
        s
    }
}

/// The state after a flush.
pub open spec fn flush_committed(
    s: StateView,
    encoded: Seq<GraphEncoded>,
    trie_key: String,
) -> StateView {
    fold(encoded, s, |s: StateView, enc: GraphEncoded| graph_committed(s, enc, trie_key))
}

fn commit_table(table: &mut TableState, enc: GraphEncoded, trie_key: &String)
    requires
        old(table).wf(),
    ensures
        final(table).wf(),
        final(table)@ == table_committed(old(table)@, enc, *trie_key),
{
    match enc.nodes {
        Some(b) => {
            table.nodes.tries.push(make_trie(trie_key, b, true));
            table.nodes.sealed = None;
        },
        None => {},
    }
    match enc.edges {
        Some(b) => {
            table.edges.tries.push(make_trie(trie_key, b, true));
            table.edges.sealed = None;
        },
        None => {},
    }
    match enc.adj_out {
        Some(b) => {
            table.adj_out.push(make_trie(trie_key, b, false));
        },
        None => {},
    }
    match enc.adj_in {
        Some(b) => {
            table.adj_in.push(make_trie(trie_key, b, false));
        },
        None => {},
    }
}

/// Lists the new blocks in the state, in place of the sealed tails.
pub fn commit_flush(state: &mut GraphsState, encoded: Vec<GraphEncoded>, trie_key: &String)
    requires
        old(state).wf(),
    ensures
        final(state).wf(),
        final(state)@ == flush_committed(old(state)@, encoded@, *trie_key),
{
    let ghost all = encoded@;
    let ghost start = state@;
    let ghost step = |s: StateView, enc: GraphEncoded| graph_committed(s, enc, *trie_key);
    proof {
        lemma_fold_all(all, start, step);
    }
    for enc in it: encoded
        invariant
            it.seq() == all,
            state.wf(),
            step == (|s: StateView, enc: GraphEncoded| graph_committed(s, enc, *trie_key)),
            state@ == fold(all.subrange(0, it.index() as int), start, step),
    {
        let ghost i = it.index() as int;
        let ghost before = state@;
        let ghost map0 = state.graphs@;
        proof {
            assert(all[i] == enc);
            lemma_fold_step(all, start, step, i);
        }
        let name = enc.graph.clone();
        match state.graphs.remove(&name) {
            Some(mut table) => {
                commit_table(&mut table, enc, trie_key);
                let ghost t = table;
                state.graphs.insert(name, table);
                proof {
                    assert(state.graphs@ =~= map0.insert(name@, t));
                    assert(state@.graphs =~= before.graphs.insert(name@, t@));
                }
            },
            None => {
                assert(state.graphs@ =~= map0);
                assert(state@ =~= before);
            },
        }
    }
    proof {
        lemma_fold_all(all, start, step);
    }
}

/// Where a flush stands.
#[derive(Clone, Copy, Debug, PartialEq, Eq, Structural)]
pub enum FlushPhase {
    /// This object is being stored.
    Putting(usize),
    PuttingManifest,
    Trimming,
    Over,
}

/// What a flush does next.
pub enum FlushAction {
    /// Store this part of a block.
    Put(Put),
    /// Store the manifest. From then on the blocks count.
    PutManifest(BlockManifest),
    /// Cut the log off before this position.
    Trim(LogPosition),
    Done,
    Failed(EngineError),
}

/// A flush in progress.
pub struct FlushRun {
    pub job: FlushJob,
    pub trie_key: String,
    pub encoded: Vec<GraphEncoded>,
    pub puts: Vec<Put>,
    pub phase: FlushPhase,
}

impl FlushRun {
    pub open spec fn wf(&self) -> bool {
        &&& (self.phase is Putting || self.phase is PuttingManifest ==> encoded_fits(
            self.job.graphs@,
            self.encoded@,
        ))
        &&& (self.phase matches FlushPhase::Putting(i) ==> i < self.puts@.len())
    }

    /// The run goes on to object `i`, or to the manifest after the last.
    pub open spec fn moves_to(&self, i: int, action: FlushAction) -> bool {
        if i < self.puts@.len() {
            self.phase == FlushPhase::Putting(i as usize) && action == FlushAction::Put(
                self.puts@[i],
            )
        } else {
            self.phase == FlushPhase::PuttingManifest && (action matches FlushAction::PutManifest(
                m,
            ) && is_manifest(m, self.job, self.encoded@, self.trie_key))
        }
    }

    fn move_to(&mut self, i: usize) -> (r: FlushAction)
        requires
            encoded_fits(old(self).job.graphs@, old(self).encoded@),
            i <= old(self).puts@.len(),
        ensures
            final(self).wf(),
            final(self).job == old(self).job,
            final(self).trie_key == old(self).trie_key,
            final(self).encoded == old(self).encoded,
            final(self).puts == old(self).puts,
            final(self).moves_to(i as int, r),
    {
        if i < self.puts.len() {
            self.phase = FlushPhase::Putting(i);
            FlushAction::Put(self.puts[i])
        } else {
            self.phase = FlushPhase::PuttingManifest;
            FlushAction::PutManifest(flush_manifest(&self.job, &self.encoded, &self.trie_key))
        }
    }

    /// Begins to store what was encoded.
    pub fn start(job: FlushJob, trie_key: String, encoded: Vec<GraphEncoded>) -> (r: (
        FlushRun,
        FlushAction,
    ))
        requires
            encoded_fits(job.graphs@, encoded@),
        ensures
            r.0.wf(),
            r.0.job == job,
            r.0.trie_key == trie_key,
            r.0.encoded == encoded,
            r.0.puts@ == puts_upto(encoded@, encoded@.len() as int),
            r.0.moves_to(0, r.1),
    {
        let puts = plan_puts(&encoded);
        let mut run = FlushRun { job, trie_key, encoded, puts, phase: FlushPhase::Over };
        let action = run.move_to(0);
        (run, action)
    }

    /// Takes in how the last action went. The state changes only once the
    /// manifest is stored; a failure before leaves it as it was, and what was
    /// stored by then is named by no manifest. How the log's cut went does not
    /// matter.
    pub fn step(&mut self, state: &mut GraphsState, outcome: Result<(), EngineError>) -> (r:
        FlushAction)
        requires
            old(self).wf(),
            old(state).wf(),
            old(self).phase != FlushPhase::Over,
        ensures
            final(self).wf(),
            final(state).wf(),
            final(self).job == old(self).job,
            final(self).trie_key == old(self).trie_key,
            final(self).puts == old(self).puts,
            !(old(self).phase == FlushPhase::PuttingManifest && outcome is Ok) ==> final(self).encoded
                == old(self).encoded && *final(state) == *old(state),
            match old(self).phase {
                FlushPhase::Putting(i) => match outcome {
                    Ok(()) => final(self).moves_to(i + 1, r),
                    Err(e) => final(self).phase == FlushPhase::Over && r == FlushAction::Failed(
                        e,
                    ),
                },
                FlushPhase::PuttingManifest => match outcome {
                    Ok(()) => {
                        &&& final(self).phase == FlushPhase::Trimming
                        &&& r == FlushAction::Trim(old(self).job.watermark)
                        &&& final(state)@ == flush_committed(
                            old(state)@,
                            old(self).encoded@,
                            old(self).trie_key,
                        )
                    },
                    Err(e) => final(self).phase == FlushPhase::Over && r == FlushAction::Failed(
                        e,
                    ),
                },
                _ => final(self).phase == FlushPhase::Over && r == FlushAction::Done,
            },
    {
        match self.phase {
            FlushPhase::Putting(i) => match outcome {
                Ok(()) => {
                    let total: usize = self.puts.len();
                    assert(i < total);
                    self.move_to(i + 1)
                },
                Err(e) => {
                    self.phase = FlushPhase::Over;
                    FlushAction::Failed(e)
                },
            },
            FlushPhase::PuttingManifest => match outcome {
                Ok(()) => {
                    let mut encoded: Vec<GraphEncoded> = Vec::new();
                    std::mem::swap(&mut encoded, &mut self.encoded);
                    commit_flush(state, encoded, &self.trie_key);
                    self.phase = FlushPhase::Trimming;
                    FlushAction::Trim(self.job.watermark)
                },
                Err(e) => {
                    self.phase = FlushPhase::Over;
                    FlushAction::Failed(e)
                },
            },
            _ => {
                self.phase = FlushPhase::Over;
                FlushAction::Done
            },
        }
    }
}

/// No two graphs of a flush have the same name.
pub open spec fn distinct_graphs(encoded: Seq<GraphEncoded>) -> bool {
    forall|i: int, j: int|
        0 <= i < j < encoded.len() ==> (#[trigger] encoded[i]).graph@ != (
        #[trigger] encoded[j]).graph@
}

proof fn lemma_committed_upto(
    s: StateView,
    encoded: Seq<GraphEncoded>,
    trie_key: String,
    n: int,
    i: int,
)
    requires
        distinct_graphs(encoded),
        0 <= i < encoded.len(),
        0 <= n <= encoded.len(),
        s.graphs.dom().contains(encoded[i].graph@),
    ensures
        ({
            let step = |s: StateView, enc: GraphEncoded| graph_committed(s, enc, trie_key);
            let after = fold(encoded.subrange(0, n), s, step);
            &&& after.graphs.dom() == s.graphs.dom()
            &&& after.graphs[encoded[i].graph@] == (if i < n {
                table_committed(s.graphs[encoded[i].graph@], encoded[i], trie_key)
            } else {
                s.graphs[encoded[i].graph@]
            })
        }),
    decreases n,
{
    let step = |s: StateView, enc: GraphEncoded| graph_committed(s, enc, trie_key);
    lemma_fold_all(encoded, s, step);
    if n > 0 {
        lemma_committed_upto(s, encoded, trie_key, n - 1, i);
        lemma_fold_step(encoded, s, step, n - 1);
        let before = fold(encoded.subrange(0, n - 1), s, step);
        let after = fold(encoded.subrange(0, n), s, step);
        assert(after == graph_committed(before, encoded[n - 1], trie_key));
        assert(after.graphs.dom() =~= s.graphs.dom());
    }
}

/// After a flush each graph lists in each inventory the blocks it listed
/// before and the new one; its new tail is untouched.
pub proof fn law_flush_lists_the_new_blocks(
    s: StateView,
    encoded: Seq<GraphEncoded>,
    trie_key: String,
    i: int,
)
    requires
        distinct_graphs(encoded),
        0 <= i < encoded.len(),
        s.graphs.dom().contains(encoded[i].graph@),
    ensures
        flush_committed(s, encoded, trie_key).graphs.dom() == s.graphs.dom(),
        flush_committed(s, encoded, trie_key).graphs[encoded[i].graph@] == table_committed(
            s.graphs[encoded[i].graph@],
            encoded[i],
            trie_key,
        ),
{
    lemma_committed_upto(s, encoded, trie_key, encoded.len() as int, i);
    assert(encoded.subrange(0, encoded.len() as int) =~= encoded);
}

/// The inventory of a graph in a state.
pub open spec fn inventory(t: TableView, slot: Slot) -> Seq<PersistedTrie> {
    match slot {
        Slot::Nodes => t.nodes.tries,
        Slot::Edges => t.edges.tries,
        Slot::AdjOut => t.adj_out,
        Slot::AdjIn => t.adj_in,
    }
}

/// A manifest lists for every graph the full inventory that the state lists
/// once the flush is done: no block is lost and none is named that is not
/// there.
pub proof fn law_manifest_lists_the_state(
    t: TableView,
    seal: GraphSeal,
    enc: GraphEncoded,
    trie_key: String,
    slot: Slot,
)
    requires
        seal.prior(slot) == entries(inventory(t, slot)),
    ensures
        tries_after(seal, enc, slot, trie_key) == entries(
            inventory(table_committed(t, enc, trie_key), slot),
        ),
{
    match enc.block(slot) {
        Some(b) => {
            assert(entries(inventory(t, slot).push(trie_of(trie_key, b, slot))) =~= entries(
                inventory(t, slot),
            ).push(entry_of(trie_key, b)));
        },
        None => {},
    }
}

proof fn lemma_tables_contain(
    seals: Seq<GraphSeal>,
    encoded: Seq<GraphEncoded>,
    trie_key: String,
    n: int,
    i: int,
    slot: Slot,
)
    requires
        0 <= i < n,
        tries_after(seals[i], encoded[i], slot, trie_key).len() > 0,
    ensures
        tables_upto(seals, encoded, trie_key, n).contains(
            slot_tables(seals[i], encoded[i], slot, trie_key)[0],
        ),
    decreases n,
{
    let all = tables_upto(seals, encoded, trie_key, n);
    let front = tables_upto(seals, encoded, trie_key, n - 1);
    let wanted = slot_tables(seals[i], encoded[i], slot, trie_key)[0];
    if i < n - 1 {
        lemma_tables_contain(seals, encoded, trie_key, n - 1, i, slot);
        let k = front.index_of(wanted);
        assert(all[k] == wanted);
    } else {
        let a = slot_tables(seals[i], encoded[i], Slot::Nodes, trie_key);
        let b = slot_tables(seals[i], encoded[i], Slot::Edges, trie_key);
        let c = slot_tables(seals[i], encoded[i], Slot::AdjOut, trie_key);
        let k = front.len() + match slot {
            Slot::Nodes => 0int,
            Slot::Edges => a.len() as int,
            Slot::AdjOut => (a.len() + b.len()) as int,
            Slot::AdjIn => (a.len() + b.len() + c.len()) as int,
        };
        assert(all[k] == wanted);
    }
}

/// A manifest names every non-empty inventory of every graph of the flush,
/// with all of its blocks, old and new.
pub proof fn law_manifest_carries_the_full_inventory(
    m: BlockManifest,
    job: FlushJob,
    encoded: Seq<GraphEncoded>,
    trie_key: String,
    i: int,
    slot: Slot,
)
    requires
        is_manifest(m, job, encoded, trie_key),
        0 <= i < job.graphs@.len(),
        tries_after(job.graphs@[i], encoded[i], slot, trie_key).len() > 0,
    ensures
        views(m.tables@).contains(
            TableTriesView {
                graph: job.graphs@[i].graph@,
                table: slot.table_spec(),
                family: slot.family_spec(),
                tries: tries_after(job.graphs@[i], encoded[i], slot, trie_key),
            },
        ),
{
    lemma_tables_contain(job.graphs@, encoded, trie_key, job.graphs@.len() as int, i, slot);
}

/// Sealing moves the live tail away: what came before the seal is in the sealed
/// tail and what comes after starts a new one. A tail that is sealed already,
/// after a flush that failed, is left as it is, and so is the live one.
pub proof fn law_sealing_moves_the_tail(c: CoreView)
    ensures
        sealed_core(c).sealed is Some <==> c.sealed is Some || c.live.len() > 0,
        c.sealed is None ==> sealed_core(c).live.len() == 0,
        c.sealed is None && c.live.len() > 0 ==> sealed_core(c).sealed == Some(c.live),
        c.sealed is Some ==> sealed_core(c).sealed == c.sealed && sealed_core(c).live == c.live,
{
}

/// Sealing a state seals both tables of every graph and changes no block.
pub proof fn law_every_graph_is_sealed(s: StateView, g: Seq<char>)
    requires
        s.graphs.dom().contains(g),
    ensures
        ({
            let w = sealed_state(s);
            let a = s.graphs[g];
            let b = w.graphs[g];
            &&& w.graphs.dom() == s.graphs.dom()
            &&& w.catalog == s.catalog
            &&& w.security_epoch == s.security_epoch
            &&& (b.nodes.sealed is Some <==> a.nodes.sealed is Some || a.nodes.live.len() > 0)
            &&& (b.edges.sealed is Some <==> a.edges.sealed is Some || a.edges.live.len() > 0)
            &&& (a.nodes.sealed is None ==> b.nodes.live.len() == 0)
            &&& (a.edges.sealed is None ==> b.edges.live.len() == 0)
            &&& b.nodes.tries == a.nodes.tries
            &&& b.edges.tries == a.edges.tries
            &&& b.adj_out == a.adj_out
            &&& b.adj_in == a.adj_in
        }),
{
    assert(sealed_state(s).graphs.dom() =~= s.graphs.dom());
}

/// The time is at least that of the last event of the sealed tail.
pub open spec fn not_before(at: i64, c: CoreView) -> bool {
    c.sealed matches Some(s) ==> s.len() > 0 ==> s.last().system_from.us <= at
}

/// The latest time of a flush is no earlier than that of any sealed event's tail
/// and than 0, and one of these is that time.
pub proof fn law_latest_time_is_the_latest(
    graphs: Seq<Seq<char>>,
    tables: Map<Seq<char>, TableView>,
)
    ensures
        latest_time(graphs, tables) >= 0,
        forall|k: int|
            0 <= k < graphs.len() ==> not_before(
                latest_time(graphs, tables),
                tables[#[trigger] graphs[k]].nodes,
            ) && not_before(latest_time(graphs, tables), tables[graphs[k]].edges),
        latest_time(graphs, tables) == 0 || exists|k: int|
            0 <= k < graphs.len() && (is_last_time(
                latest_time(graphs, tables),
                tables[#[trigger] graphs[k]].nodes,
            ) || is_last_time(latest_time(graphs, tables), tables[graphs[k]].edges)),
    decreases graphs.len(),
{
    let step = |at: i64, g: Seq<char>|
        time_with(time_with(at, tables[g].nodes), tables[g].edges);
    if graphs.len() > 0 {
        let front = graphs.drop_last();
        let last = graphs.last();
        law_latest_time_is_the_latest(front, tables);
        let before = latest_time(front, tables);
        let all = latest_time(graphs, tables);
        assert(all == time_with(time_with(before, tables[last].nodes), tables[last].edges));
        assert(before <= all);
        assert(graphs[graphs.len() - 1] == last);
        assert forall|k: int| 0 <= k < graphs.len() implies not_before(
            all,
            tables[#[trigger] graphs[k]].nodes,
        ) && not_before(all, tables[graphs[k]].edges) by {
            if k < front.len() {
                assert(front[k] == graphs[k]);
                assert(not_before(before, tables[front[k]].nodes));
            }
        }
        if all == before && before != 0 {
            let k = choose|k: int|
                0 <= k < front.len() && (is_last_time(before, tables[#[trigger] front[k]].nodes)
                    || is_last_time(before, tables[front[k]].edges));
            assert(graphs[k] == front[k]);
        }
    }
}

/// The time is that of the last event of the sealed tail.
pub open spec fn is_last_time(at: i64, c: CoreView) -> bool {
    c.sealed matches Some(s) && s.len() > 0 && s.last().system_from.us == at
}

proof fn lemma_tasks(seals: Seq<GraphSeal>, n: int, t: EncodeTask)
    requires
        0 <= n <= seals.len(),
        seals.len() <= usize::MAX,
    ensures
        tasks_upto(seals, n).contains(t) <==> t.graph < n && ((t.slot is Nodes
            && seals[t.graph as int].nodes is Some) || (!(t.slot is Nodes)
            && seals[t.graph as int].edges is Some)),
    decreases n,
{
    if n > 0 {
        lemma_tasks(seals, n - 1, t);
        let a = tasks_upto(seals, n - 1);
        let b = graph_tasks(n - 1, seals[n - 1]);
        let g = (n - 1) as usize;
        let seal = seals[n - 1];
        assert(b.contains(t) <==> t.graph == g && ((t.slot is Nodes && seal.nodes is Some) || (!(
        t.slot is Nodes) && seal.edges is Some))) by {
            let x = if seal.nodes is Some {
                1int
            } else {
                0
            };
            if seal.nodes is Some {
                assert(b[0] == EncodeTask { graph: g, slot: Slot::Nodes });
            }
            if seal.edges is Some {
                assert(b[x] == EncodeTask { graph: g, slot: Slot::Edges });
                assert(b[x + 1] == EncodeTask { graph: g, slot: Slot::AdjOut });
                assert(b[x + 2] == EncodeTask { graph: g, slot: Slot::AdjIn });
            }
        }
        if a.contains(t) {
            assert((a + b)[a.index_of(t)] == t);
        }
        if b.contains(t) {
            assert((a + b)[a.len() + b.index_of(t)] == t);
        }
        if (a + b).contains(t) {
            let k = (a + b).index_of(t);
            if k < a.len() {
                assert(a[k] == t);
            } else {
                assert(b[k - a.len()] == t);
            }
        }
    }
}

/// A flush encodes a block of nodes for every graph with sealed nodes, and a
/// block of edges and one for each of the two ways to follow them for every
/// graph with sealed edges; nothing else.
pub proof fn law_every_sealed_tail_is_encoded(seals: Seq<GraphSeal>, t: EncodeTask)
    requires
        seals.len() <= usize::MAX,
    ensures
        tasks_upto(seals, seals.len() as int).contains(t) <==> t.graph < seals.len() && ((
        t.slot is Nodes && seals[t.graph as int].nodes is Some) || (!(t.slot is Nodes)
            && seals[t.graph as int].edges is Some)),
{
    lemma_tasks(seals, seals.len() as int, t);
}

proof fn lemma_joined<T>(a: Seq<T>, b: Seq<T>, x: T)
    ensures
        (a + b).contains(x) <==> a.contains(x) || b.contains(x),
{
    if a.contains(x) {
        assert((a + b)[a.index_of(x)] == x);
    }
    if b.contains(x) {
        assert((a + b)[a.len() + b.index_of(x)] == x);
    }
    if (a + b).contains(x) {
        let k = (a + b).index_of(x);
        if k < a.len() {
            assert(a[k] == x);
        } else {
            assert(b[k - a.len()] == x);
        }
    }
}

proof fn lemma_slot_puts(graph: int, slot: Slot, block: Option<EncodedBlock>, p: Put)
    ensures
        slot_puts(graph, slot, block).contains(p) <==> block is Some && p.graph == graph as usize
            && p.slot == slot && (p.part is Data || p.part is Meta || p.part is Keys || slot
            == Slot::Nodes || slot == Slot::Edges),
{
    let all = slot_puts(graph, slot, block);
    if block is Some {
        assert(all[0] == Put { graph: graph as usize, slot, part: BlockPart::Data });
        assert(all[1] == Put { graph: graph as usize, slot, part: BlockPart::Meta });
        if slot == Slot::Nodes || slot == Slot::Edges {
            assert(all[2] == Put { graph: graph as usize, slot, part: BlockPart::Labels });
            assert(all[3] == Put { graph: graph as usize, slot, part: BlockPart::Keys });
            assert(all[4] == Put { graph: graph as usize, slot, part: BlockPart::Props });
        } else {
            assert(all[2] == Put { graph: graph as usize, slot, part: BlockPart::Keys });
        }
    }
}

proof fn lemma_puts(encoded: Seq<GraphEncoded>, n: int, p: Put)
    requires
        0 <= n <= encoded.len(),
        encoded.len() <= usize::MAX,
    ensures
        puts_upto(encoded, n).contains(p) <==> p.graph < n && encoded[p.graph as int].block(p.slot)
            is Some && (p.part is Data || p.part is Meta || p.part is Keys || p.slot == Slot::Nodes
            || p.slot == Slot::Edges),
    decreases n,
{
    if n > 0 {
        lemma_puts(encoded, n - 1, p);
        let enc = encoded[n - 1];
        let a = slot_puts(n - 1, Slot::Nodes, enc.nodes);
        let b = slot_puts(n - 1, Slot::Edges, enc.edges);
        let c = slot_puts(n - 1, Slot::AdjOut, enc.adj_out);
        let d = slot_puts(n - 1, Slot::AdjIn, enc.adj_in);
        lemma_slot_puts(n - 1, Slot::Nodes, enc.nodes, p);
        lemma_slot_puts(n - 1, Slot::Edges, enc.edges, p);
        lemma_slot_puts(n - 1, Slot::AdjOut, enc.adj_out, p);
        lemma_slot_puts(n - 1, Slot::AdjIn, enc.adj_in, p);
        lemma_joined(a, b, p);
        lemma_joined(a + b, c, p);
        lemma_joined(a + b + c, d, p);
        lemma_joined(puts_upto(encoded, n - 1), graph_puts(n - 1, enc), p);
    }
}

/// Before the manifest every part of every new block is stored: its rows, its
/// page index and its keys, and of a block of nodes or edges also its labels
/// and properties.
pub proof fn law_every_part_is_stored(encoded: Seq<GraphEncoded>, p: Put)
    requires
        encoded.len() <= usize::MAX,
    ensures
        puts_upto(encoded, encoded.len() as int).contains(p) <==> p.graph < encoded.len()
            && encoded[p.graph as int].block(p.slot) is Some && (p.part is Data || p.part is Meta
            || p.part is Keys || p.slot == Slot::Nodes || p.slot == Slot::Edges),
{
    lemma_puts(encoded, encoded.len() as int, p);
}

/// A new block stands behind those of its inventory, under the key of the flush
/// and with its own pages, and the sealed tail that it holds is gone; what came
/// in the meantime stays live. An inventory without a new block stays as it is.
pub proof fn law_blocks_replace_sealed_tails(t: TableView, enc: GraphEncoded, trie_key: String)
    ensures
        ({
            let w = table_committed(t, enc, trie_key);
            &&& w.nodes.live == t.nodes.live
            &&& w.edges.live == t.edges.live
            &&& match enc.nodes {
                Some(b) => w.nodes.sealed is None && w.nodes.tries.len() == t.nodes.tries.len() + 1
                    && w.nodes.tries.drop_last() == t.nodes.tries
                    && w.nodes.tries.last().entry.trie_key == trie_key
                    && w.nodes.tries.last().pages == b.pages,
                None => w.nodes == t.nodes,
            }
            &&& match enc.edges {
                Some(b) => w.edges.sealed is None && w.edges.tries.len() == t.edges.tries.len() + 1
                    && w.edges.tries.drop_last() == t.edges.tries
                    && w.edges.tries.last().entry.trie_key == trie_key
                    && w.edges.tries.last().pages == b.pages,
                None => w.edges == t.edges,
            }
            &&& match enc.adj_out {
                Some(b) => w.adj_out.len() == t.adj_out.len() + 1 && w.adj_out.drop_last()
                    == t.adj_out && w.adj_out.last().entry.trie_key == trie_key
                    && w.adj_out.last().pages == b.pages,
                None => w.adj_out == t.adj_out,
            }
            &&& match enc.adj_in {
                Some(b) => w.adj_in.len() == t.adj_in.len() + 1 && w.adj_in.drop_last() == t.adj_in
                    && w.adj_in.last().entry.trie_key == trie_key && w.adj_in.last().pages
                    == b.pages,
                None => w.adj_in == t.adj_in,
            }
        }),
{
    let w = table_committed(t, enc, trie_key);
    if enc.nodes is Some {
        assert(w.nodes.tries.drop_last() =~= t.nodes.tries);
    }
    if enc.edges is Some {
        assert(w.edges.tries.drop_last() =~= t.edges.tries);
    }
    if enc.adj_out is Some {
        assert(w.adj_out.drop_last() =~= t.adj_out);
    }
    if enc.adj_in is Some {
        assert(w.adj_in.drop_last() =~= t.adj_in);
    }
}

} // verus!
