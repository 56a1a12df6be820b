//! The inventories after a compaction: what went in is replaced by what came
//! out.

use super::scope_order;
use crate::error::{EngineError, ErrorView};
use crate::flush::{
    clone_entries, inventory, BlockManifest, Slot, TableTries, TableTriesView, ADJ_IN, ADJ_OUT,
};
use crate::sorted::OrderedKey;
use crate::stable::{stable_sort, stable_sorted};
use crate::state::{
    CoreView, GraphsState, PersistedTrie, StateView, TableState, TableView, TrieEntry,
    EDGES_TABLE, NODES_TABLE,
};
use crate::text::{concat2, concat4, contains_text, lemma_views_push, views};
use crate::trie::{ScopeView, TableScope};
use vstd::prelude::*;

verus! {

/// A block that is known by a name.
pub trait Keyed: Sized {
    spec fn name(&self) -> Seq<char>;

    fn key(&self) -> (r: &String)
        ensures
            r@ == self.name(),
    ;
}

impl Keyed for TrieEntry {
    open spec fn name(&self) -> Seq<char> {
        self.trie_key@
    }

    fn key(&self) -> (r: &String) {
        &self.trie_key
    }
}

impl Keyed for PersistedTrie {
    open spec fn name(&self) -> Seq<char> {
        self.entry.trie_key@
    }

    fn key(&self) -> (r: &String) {
        &self.entry.trie_key
    }
}

/// The names of some blocks.
pub open spec fn key_names<T: Keyed>(tries: Seq<T>) -> Seq<Seq<char>> {
    tries.map_values(|t: T| t.name())
}

/// The blocks without those that went in, with those that came out, in the
/// order of their names.
pub open spec fn replaced<T: Keyed>(
    tries: Seq<T>,
    inputs: Seq<Seq<char>>,
    outputs: Seq<T>,
) -> Seq<T> {
    let all = tries.filter(|t: T| !inputs.contains(t.name())) + outputs;
    stable_sorted::<String, T>(all, key_names(all))
}

/// Replaces the blocks that went in by those that came out.
pub fn replace_inputs_with_outputs<T: Keyed>(
    tries: Vec<T>,
    inputs: &Vec<String>,
    outputs: Vec<T>,
) -> (r: Vec<T>)
    ensures
        r@ == replaced(tries@, views(inputs@), outputs@),
{
    let ghost all = tries@;
    let ghost names = views(inputs@);
    let ghost pred = |t: T| !names.contains(t.name());
    let mut kept: Vec<T> = Vec::new();
    proof {
        reveal(Seq::filter);
        assert(all.subrange(0, 0) =~= Seq::<T>::empty());
    }
    for trie in it: tries
        invariant
            it.seq() == all,
            names == views(inputs@),
            pred == (|t: T| !names.contains(t.name())),
            kept@ == all.subrange(0, it.index() as int).filter(pred),
    {
        let ghost i = it.index() as int;
        proof {
            reveal(Seq::filter);
            assert(all.subrange(0, i + 1).drop_last() =~= all.subrange(0, i));
            assert(all[i] == trie);
        }
        if !contains_text(inputs, trie.key().as_str()) {
            kept.push(trie);
        }
    }
    assert(all.subrange(0, all.len() as int) =~= all);
    let ghost first = kept@;
    let ghost second = outputs@;
    assert(first + second.subrange(0, 0) =~= first);
    for trie in it: outputs
        invariant
            it.seq() == second,
            kept@ == first + second.subrange(0, it.index() as int),
    {
        assert(second[it.index() as int] == trie);
        kept.push(trie);
        assert(kept@ =~= first + second.subrange(0, it.index() as int + 1));
    }
    assert(second.subrange(0, second.len() as int) =~= second);
    let mut keys: Vec<String> = Vec::new();
    let mut i: usize = 0;
    while i < kept.len()
        invariant
            i <= kept.len(),
            keys@.len() == i,
            forall|k: int| 0 <= k < i ==> (#[trigger] keys@[k])@ == kept@[k].name(),
        decreases kept.len() - i,
    {
        keys.push(kept[i].key().clone());
        i += 1;
    }
    assert(keys@.map_values(|k: String| k.model()) =~= key_names(kept@));
    stable_sort(kept, keys)
}

/// The inventory that an entry of a manifest is of.
pub open spec fn scope_of(t: TableTriesView) -> ScopeView {
    ScopeView { graph: t.graph, table: t.table, family: t.family }
}

/// The place of an inventory in a manifest.
pub open spec fn is_place(tables: Seq<TableTriesView>, scope: ScopeView, i: int) -> bool {
    &&& 0 <= i < tables.len()
    &&& scope_of(tables[i]) == scope
    &&& forall|k: int| 0 <= k < i ==> scope_of(#[trigger] tables[k]) != scope
}

/// What a manifest lists after a compaction.
pub open spec fn compacted_tables(
    tables: Seq<TableTriesView>,
    scope: ScopeView,
    inputs: Seq<Seq<char>>,
    outputs: Seq<TrieEntry>,
    after: Seq<TableTriesView>,
) -> bool {
    if exists|i: int| is_place(tables, scope, i) {
        let i = choose|i: int| is_place(tables, scope, i);
        after == tables.update(
            i,
            TableTriesView { tries: replaced(tables[i].tries, inputs, outputs), ..tables[i] },
        )
    } else if outputs.len() > 0 {
        after == tables.push(
            TableTriesView {
                graph: scope.graph,
                table: scope.table,
                family: scope.family,
                tries: replaced(Seq::<TrieEntry>::empty(), inputs, outputs),
            },
        )
    } else {
        after == tables
    }
}

fn same_scope(t: &TableTries, scope: &TableScope) -> (r: bool)
    ensures
        r == (scope_of(t@) == scope@),
{
    crate::text::same_text(&t.graph, &scope.graph) && crate::text::same_text(
        &t.table,
        &scope.table,
    ) && crate::text::same_text(&t.family, &scope.family)
}

/// The manifest after a compaction. It covers the same part of the log.
pub fn compacted_manifest(
    latest: &BlockManifest,
    block_id: u64,
    scope: &TableScope,
    inputs: &Vec<String>,
    outputs: Vec<TrieEntry>,
) -> (r: BlockManifest)
    ensures
        r.block_id == block_id,
        r.watermark == latest.watermark,
        r.max_tx_id == latest.max_tx_id,
        r.max_system_time_us == latest.max_system_time_us,
        compacted_tables(
            views(latest.tables@),
            scope@,
            views(inputs@),
            outputs@,
            views(r.tables@),
        ),
{
    let ghost before = views(latest.tables@);
    let ghost given = outputs@;
    let ghost names = views(inputs@);
    let mut tables: Vec<TableTries> = Vec::new();
    let mut out: Option<Vec<TrieEntry>> = Some(outputs);
    let ghost mut place: int = -1;
    let mut i: usize = 0;
    assert(views(tables@) =~= before.subrange(0, 0));
    while i < latest.tables.len()
        invariant
            i <= latest.tables.len(),
            before == views(latest.tables@),
            names == views(inputs@),
            -1 <= place < i,
            match out {
                Some(o) => place == -1 && o@ == given && views(tables@) == before.subrange(
                    0,
                    i as int,
                ) && forall|k: int| 0 <= k < i ==> scope_of(#[trigger] before[k]) != scope@,
                None => is_place(before, scope@, place) && views(tables@) == before.subrange(
                    0,
                    i as int,
                ).update(
                    place,
                    TableTriesView {
                        tries: replaced(before[place].tries, names, given),
                        ..before[place]
                    },
                ),
            },
        decreases latest.tables.len() - i,
    {
        let t = &latest.tables[i];
        let ghost tables0 = tables@;
        let hit = out.is_some() && same_scope(t, scope);
        let copy = clone_entries(&t.tries);
        let tries = if hit {
            match out.take() {
                Some(o) => replace_inputs_with_outputs(copy, inputs, o),
                None => copy,
            }
        } else {
            copy
        };
        let next = TableTries {
            graph: t.graph.clone(),
            table: t.table.clone(),
            family: t.family.clone(),
            tries,
        };
        proof {
            lemma_views_push(tables0, next);
            assert(before[i as int] == t@);
            assert(before.subrange(0, i + 1) =~= before.subrange(0, i as int).push(t@));
        }
        tables.push(next);
        proof {
            if hit {
                place = i as int;
                assert(is_place(before, scope@, place));
                assert(views(tables@) =~= before.subrange(0, i + 1).update(
                    place,
                    TableTriesView {
                        tries: replaced(before[place].tries, names, given),
                        ..before[place]
                    },
                ));
            } else if out is None {
                assert(next@ =~= t@);
                assert(views(tables@) =~= before.subrange(0, i + 1).update(
                    place,
                    TableTriesView {
                        tries: replaced(before[place].tries, names, given),
                        ..before[place]
                    },
                ));
            } else {
                assert(next@ =~= t@);
            }
        }
        i += 1;
    }
    assert(before.subrange(0, before.len() as int) =~= before);
    match out {
        None => {
            proof {
                let k = choose|k: int| is_place(before, scope@, k);
                assert(is_place(before, scope@, place));
                assert(k == place) by {
                    if k < place {
                        assert(scope_of(before[k]) != scope@);
                    }
                    if place < k {
                        assert(scope_of(before[place]) != scope@);
                    }
                }
            }
        },
        Some(o) => {
            assert(!exists|k: int| is_place(before, scope@, k));
            if o.len() > 0 {
                let none: Vec<TrieEntry> = Vec::new();
                assert(none@ =~= Seq::<TrieEntry>::empty());
                let tries = replace_inputs_with_outputs(none, inputs, o);
                let next = TableTries {
                    graph: scope.graph.clone(),
                    table: scope.table.clone(),
                    family: scope.family.clone(),
                    tries,
                };
                proof {
                    lemma_views_push(tables@, next);
                }
                tables.push(next);
            }
        },
    }
    BlockManifest {
        block_id,
        watermark: latest.watermark,
        max_tx_id: latest.max_tx_id,
        max_system_time_us: latest.max_system_time_us,
        tables,
    }
}

/// The inventory of a graph that a scope means.
pub open spec fn slot_of(scope: ScopeView) -> Option<Slot> {
    if scope.table == NODES_TABLE@ && scope.family == ""@ {
        Some(Slot::Nodes)
    } else if scope.table == EDGES_TABLE@ && scope.family == ""@ {
        Some(Slot::Edges)
    } else if scope.table == EDGES_TABLE@ && scope.family == ADJ_OUT@ {
        Some(Slot::AdjOut)
    } else if scope.table == EDGES_TABLE@ && scope.family == ADJ_IN@ {
        Some(Slot::AdjIn)
    } else {
        None
    }
}

pub fn find_slot(scope: &TableScope) -> (r: Option<Slot>)
    ensures
        r == slot_of(scope@),
{
    if scope.is(NODES_TABLE, "") {
        Some(Slot::Nodes)
    } else if scope.is(EDGES_TABLE, "") {
        Some(Slot::Edges)
    } else if scope.is(EDGES_TABLE, ADJ_OUT) {
        Some(Slot::AdjOut)
    } else if scope.is(EDGES_TABLE, ADJ_IN) {
        Some(Slot::AdjIn)
    } else {
        None
    }
}

/// The error of an inventory that is not known.
pub open spec fn unknown_scope(scope: ScopeView) -> ErrorView {
    ErrorView::UnknownTable(scope.graph + "/"@ + scope.table + ("/"@ + scope.family))
}

pub fn unknown_scope_error(scope: &TableScope) -> (r: EngineError)
    ensures
        r@ == unknown_scope(scope@),
{
    let tail = concat2("/", scope.family.as_str());
    EngineError::UnknownTable(
        concat4(scope.graph.as_str(), "/", scope.table.as_str(), tail.as_str()),
    )
}

/// A graph with another inventory.
pub open spec fn with_inventory(t: TableView, slot: Slot, tries: Seq<PersistedTrie>) -> TableView {
    match slot {
        Slot::Nodes => TableView { nodes: CoreView { tries, ..t.nodes }, ..t },
        Slot::Edges => TableView { edges: CoreView { tries, ..t.edges }, ..t },
        Slot::AdjOut => TableView { adj_out: tries, ..t },
        Slot::AdjIn => TableView { adj_in: tries, ..t },
    }
}

/// The state after a compaction.
pub open spec fn state_compacted(
    s: StateView,
    scope: ScopeView,
    inputs: Seq<Seq<char>>,
    outputs: Seq<PersistedTrie>,
) -> Result<StateView, ErrorView> {
    if !s.graphs.dom().contains(scope.graph) {
        Err(ErrorView::UnknownGraph(scope.graph))
    } else {
        match slot_of(scope) {
            None => Err(unknown_scope(scope)),
            Some(slot) => Ok(
                StateView {
                    graphs: s.graphs.insert(
                        scope.graph,
                        with_inventory(
                            s.graphs[scope.graph],
                            slot,
                            replaced(inventory(s.graphs[scope.graph], slot), inputs, outputs),
                        ),
                    ),
                    ..s
                },
            ),
        }
    }
}

fn replace_in_table(
    table: &mut TableState,
    slot: Slot,
    inputs: &Vec<String>,
    outputs: Vec<PersistedTrie>,
)
    requires
        old(table).wf(),
    ensures
        final(table).wf(),
        final(table)@ == with_inventory(
            old(table)@,
            slot,
            replaced(inventory(old(table)@, slot), views(inputs@), outputs@),
        ),
{
    let mut tries: Vec<PersistedTrie> = Vec::new();
    match slot {
        Slot::Nodes => {
            std::mem::swap(&mut tries, &mut table.nodes.tries);
            table.nodes.tries = replace_inputs_with_outputs(tries, inputs, outputs);
        },
        Slot::Edges => {
            std::mem::swap(&mut tries, &mut table.edges.tries);
            table.edges.tries = replace_inputs_with_outputs(tries, inputs, outputs);
        },
        Slot::AdjOut => {
            std::mem::swap(&mut tries, &mut table.adj_out);
            table.adj_out = replace_inputs_with_outputs(tries, inputs, outputs);
        },
        Slot::AdjIn => {
            std::mem::swap(&mut tries, &mut table.adj_in);
            table.adj_in = replace_inputs_with_outputs(tries, inputs, outputs);
        },
    }
}

/// Lists in the state what came out, in place of what went in.
pub fn commit_compaction(
    state: &mut GraphsState,
    scope: &TableScope,
    inputs: &Vec<String>,
    outputs: Vec<PersistedTrie>,
) -> (r: Result<(), EngineError>)
    requires
        old(state).wf(),
    ensures
        final(state).wf(),
        match r {
            Ok(()) => state_compacted(old(state)@, scope@, views(inputs@), outputs@) == Ok::<
                StateView,
                ErrorView,
            >(final(state)@),
            Err(e) => state_compacted(old(state)@, scope@, views(inputs@), outputs@) == Err::<
                StateView,
                ErrorView,
            >(e@) && final(state)@ == old(state)@,
        },
{
    let ghost before = state@;
    let ghost map0 = state.graphs@;
    if !state.has_graph(scope.graph.as_str()) {
        return Err(EngineError::UnknownGraph(scope.graph.clone()));
    }
    let slot = match find_slot(scope) {
        Some(slot) => slot,
        None => {
            return Err(unknown_scope_error(scope));
        },
    };
    match state.graphs.remove(&scope.graph) {
        Some(mut table) => {
            replace_in_table(&mut table, slot, inputs, outputs);
            let ghost t = table;
            state.graphs.insert(scope.graph.clone(), table);
            proof {
                assert(state.graphs@ =~= map0.insert(scope.graph@, t));
                assert(state@.graphs =~= before.graphs.insert(scope.graph@, t@));
            }
        },
        None => {
            assert(false);
        },
    }
    Ok(())
}

/// A compaction changes the inventory that it is of and nothing else: neither
/// another inventory nor what is not yet in a block.
pub proof fn law_compaction_touches_one_inventory(
    t: TableView,
    slot: Slot,
    other: Slot,
    tries: Seq<PersistedTrie>,
)
    requires
        slot != other,
    ensures
        inventory(with_inventory(t, slot, tries), other) == inventory(t, other),
        inventory(with_inventory(t, slot, tries), slot) == tries,
        with_inventory(t, slot, tries).nodes.live == t.nodes.live,
        with_inventory(t, slot, tries).edges.live == t.edges.live,
        with_inventory(t, slot, tries).nodes.sealed == t.nodes.sealed,
        with_inventory(t, slot, tries).edges.sealed == t.edges.sealed,
{
}

/// An inventory that a compaction knows has an order for its rows.
pub proof fn law_known_inventories_have_an_order(scope: ScopeView)
    ensures
        slot_of(scope) is Some <==> scope_order(scope) is Some,
        slot_of(scope) is Some ==> scope_order(scope) == Some(slot_of(scope)->0.order_spec()),
{
}

proof fn lemma_replaced_names<T: Keyed>(
    tries: Seq<T>,
    inputs: Seq<Seq<char>>,
    outputs: Seq<T>,
    i: int,
)
    requires
        (tries.filter(|t: T| !inputs.contains(t.name())) + outputs).len() <= usize::MAX,
        0 <= i < replaced(tries, inputs, outputs).len(),
    ensures
        outputs.contains(replaced(tries, inputs, outputs)[i]) || (tries.contains(
            replaced(tries, inputs, outputs)[i],
        ) && !inputs.contains(replaced(tries, inputs, outputs)[i].name())),
{
    let pred = |t: T| !inputs.contains(t.name());
    let kept = tries.filter(pred);
    let all = kept + outputs;
    let places = crate::stable::lemma_stable_sorted::<String, T>(all, key_names(all));
    let p = places[i] as int;
    let x = all[p];
    if p < kept.len() {
        assert(kept.contains(kept[p]));
        lemma_filter_member(tries, pred, kept[p]);
    } else {
        assert(outputs[p - kept.len()] == x);
    }
}

proof fn lemma_filter_member<T>(s: Seq<T>, pred: spec_fn(T) -> bool, x: T)
    requires
        s.filter(pred).contains(x),
    ensures
        s.contains(x),
        pred(x),
    decreases s.len(),
{
    reveal(Seq::filter);
    if s.len() > 0 {
        let front = s.drop_last();
        let kept = front.filter(pred);
        if kept.contains(x) {
            lemma_filter_member(front, pred, x);
            let k = front.index_of(x);
            assert(s[k] == x);
        } else {
            let k = s.filter(pred).index_of(x);
            if k < kept.len() {
                assert(kept[k] == x);
            }
            assert(s[s.len() - 1] == x);
        }
    }
}

/// Nothing that went in is listed any more, unless it came out again.
pub proof fn law_inputs_are_replaced<T: Keyed>(
    tries: Seq<T>,
    inputs: Seq<Seq<char>>,
    outputs: Seq<T>,
    i: int,
)
    requires
        tries.len() + outputs.len() <= usize::MAX,
        0 <= i < replaced(tries, inputs, outputs).len(),
    ensures
        outputs.contains(replaced(tries, inputs, outputs)[i]) || (tries.contains(
            replaced(tries, inputs, outputs)[i],
        ) && !inputs.contains(replaced(tries, inputs, outputs)[i].name())),
{
    tries.lemma_filter_len(|t: T| !inputs.contains(t.name()));
    lemma_replaced_names(tries, inputs, outputs, i);
}

proof fn lemma_filter_keeps<T>(s: Seq<T>, pred: spec_fn(T) -> bool, x: T)
    requires
        s.contains(x),
        pred(x),
    ensures
        s.filter(pred).contains(x),
    decreases s.len(),
{
    reveal(Seq::filter);
    let front = s.drop_last();
    let kept = front.filter(pred);
    let all = s.filter(pred);
    let k = s.index_of(x);
    if k < front.len() {
        assert(front[k] == x);
        lemma_filter_keeps(front, pred, x);
        assert(all[kept.index_of(x)] == x);
    } else {
        assert(all[all.len() - 1] == x);
    }
}

/// What did not go into a compaction stays listed, and all that came out is
/// listed; the list is in the order of the names.
pub proof fn law_what_did_not_go_in_stays<T: Keyed>(
    tries: Seq<T>,
    inputs: Seq<Seq<char>>,
    outputs: Seq<T>,
    x: T,
)
    requires
        tries.len() + outputs.len() <= usize::MAX,
    ensures
        tries.contains(x) && !inputs.contains(x.name()) ==> replaced(
            tries,
            inputs,
            outputs,
        ).contains(x),
        outputs.contains(x) ==> replaced(tries, inputs, outputs).contains(x),
        replaced(tries, inputs, outputs).len() <= tries.len() + outputs.len(),
        forall|i: int, j: int|
            0 <= i < j < replaced(tries, inputs, outputs).len() ==> !String::less(
                (#[trigger] replaced(tries, inputs, outputs)[j]).name(),
                (#[trigger] replaced(tries, inputs, outputs)[i]).name(),
            ),
{
    let pred = |t: T| !inputs.contains(t.name());
    let kept = tries.filter(pred);
    let all = kept + outputs;
    let keys = key_names(all);
    let out = replaced(tries, inputs, outputs);
    tries.lemma_filter_len(pred);
    crate::stable::law_sorting_keeps_every_entry::<String, T>(all, keys);
    let places = crate::stable::lemma_stable_sorted::<String, T>(all, keys);
    if tries.contains(x) && !inputs.contains(x.name()) {
        lemma_filter_keeps(tries, pred, x);
        assert(all[kept.index_of(x)] == x);
        assert(all.contains(x));
    }
    if outputs.contains(x) {
        assert(all[kept.len() + outputs.index_of(x)] == x);
        assert(all.contains(x));
    }
    assert forall|i: int, j: int| 0 <= i < j < out.len() implies !String::less(
        (#[trigger] out[j]).name(),
        (#[trigger] out[i]).name(),
    ) by {
        let p = places[i] as int;
        let q = places[j] as int;
        assert(out[i] == all[p]);
        assert(out[j] == all[q]);
        assert(keys[p] == all[p].name());
        assert(keys[q] == all[q].name());
        String::order_laws(keys[p], keys[q]);
    }
}

/// A compaction of one inventory of one graph leaves the state as it is but for
/// that inventory: every other graph, the graph's three other inventories and
/// what it has not flushed stay.
pub proof fn law_compactions_leave_the_rest(
    s: StateView,
    scope: ScopeView,
    inputs: Seq<Seq<char>>,
    outputs: Seq<PersistedTrie>,
)
    requires
        state_compacted(s, scope, inputs, outputs) is Ok,
    ensures
        ({
            let w = state_compacted(s, scope, inputs, outputs)->Ok_0;
            let g = scope.graph;
            let a = s.graphs[g];
            let b = w.graphs[g];
            let nodes = scope.table == "nodes"@;
            let edges = scope.table == "edges"@;
            &&& s.graphs.dom().contains(g)
            &&& w.graphs.dom() == s.graphs.dom()
            &&& forall|x: Seq<char>| x != g ==> #[trigger] w.graphs[x] == s.graphs[x]
            &&& w.catalog == s.catalog
            &&& w.security_epoch == s.security_epoch
            &&& b.nodes.live == a.nodes.live
            &&& b.nodes.sealed == a.nodes.sealed
            &&& b.edges.live == a.edges.live
            &&& b.edges.sealed == a.edges.sealed
            &&& (nodes ==> scope.family == ""@ && b.nodes.tries == replaced(
                a.nodes.tries,
                inputs,
                outputs,
            ))
            &&& (!nodes ==> edges && b.nodes.tries == a.nodes.tries)
            &&& (edges && scope.family == ""@ ==> b.edges.tries == replaced(
                a.edges.tries,
                inputs,
                outputs,
            ))
            &&& (!(edges && scope.family == ""@) ==> b.edges.tries == a.edges.tries)
            &&& (edges && scope.family == "adj-out"@ ==> b.adj_out == replaced(
                a.adj_out,
                inputs,
                outputs,
            ))
            &&& (!(edges && scope.family == "adj-out"@) ==> b.adj_out == a.adj_out)
            &&& (edges && scope.family == "adj-in"@ ==> b.adj_in == replaced(
                a.adj_in,
                inputs,
                outputs,
            ))
            &&& (!(edges && scope.family == "adj-in"@) ==> b.adj_in == a.adj_in)
        }),
{
    reveal_strlit("nodes");
    reveal_strlit("edges");
    reveal_strlit("");
    reveal_strlit("adj-out");
    reveal_strlit("adj-in");
    assert("nodes"@[0] != "edges"@[0]);
    assert(""@.len() != "adj-out"@.len());
    assert(""@.len() != "adj-in"@.len());
    assert("adj-out"@.len() != "adj-in"@.len());
    let w = state_compacted(s, scope, inputs, outputs)->Ok_0;
    assert(w.graphs.dom() =~= s.graphs.dom());
}

/// The manifest after a compaction names for every other inventory what it named
/// before, and for its own what did not go in and what came out.
pub proof fn law_manifests_keep_other_inventories(
    tables: Seq<TableTriesView>,
    scope: ScopeView,
    inputs: Seq<Seq<char>>,
    outputs: Seq<TrieEntry>,
    after: Seq<TableTriesView>,
    i: int,
)
    requires
        compacted_tables(tables, scope, inputs, outputs, after),
        0 <= i < tables.len(),
    ensures
        tables.len() <= after.len() <= tables.len() + 1,
        after[i].graph == tables[i].graph,
        after[i].table == tables[i].table,
        after[i].family == tables[i].family,
        !(tables[i].graph == scope.graph && tables[i].table == scope.table && tables[i].family
            == scope.family) ==> after[i] == tables[i],
        tables[i].graph == scope.graph && tables[i].table == scope.table && tables[i].family
            == scope.family && (forall|k: int|
            0 <= k < i ==> !((#[trigger] tables[k]).graph == scope.graph && tables[k].table
                == scope.table && tables[k].family == scope.family)) ==> after[i].tries == replaced(
            tables[i].tries,
            inputs,
            outputs,
        ) && after.len() == tables.len(),
{
    if exists|k: int| is_place(tables, scope, k) {
        let k = choose|k: int| is_place(tables, scope, k);
        assert(scope_of(tables[k]) == scope);
        if tables[i].graph == scope.graph && tables[i].table == scope.table && tables[i].family
            == scope.family {
            assert(scope_of(tables[i]) =~= scope);
            if k < i {
                assert(tables[k].graph == scope.graph);
            }
        }
    } else {
        if tables[i].graph == scope.graph && tables[i].table == scope.table && tables[i].family
            == scope.family && (forall|k: int|
            0 <= k < i ==> !((#[trigger] tables[k]).graph == scope.graph && tables[k].table
                == scope.table && tables[k].family == scope.family)) {
            assert(scope_of(tables[i]) =~= scope);
            assert forall|k: int| 0 <= k < i implies scope_of(#[trigger] tables[k]) != scope by {
                assert(!(tables[k].graph == scope.graph && tables[k].table == scope.table
                    && tables[k].family == scope.family));
            }
            assert(is_place(tables, scope, i));
        }
    }
}

} // verus!
