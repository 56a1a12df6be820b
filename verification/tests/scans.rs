//! Scans, merges and searches.

use varve_engine::calendar::{civil_from_days, div_floor};
use varve_engine::doc::Doc;
use varve_engine::error::{EngineError, PlanError};
use varve_engine::event::{Event, Op};
use varve_engine::keys::{has_path_prefix, is_graph_data_or_meta_key, object_key};
use varve_engine::lazy_scan::{
    missing_catalogs, narrow, plan_lazy_scan, scan_fields, FieldType, LazyPlan, ScanField,
};
use varve_engine::merge_scan::{
    cached_page, decodes_in_part, page_decoded, RowLimit, ScanAction, ScanMerge,
};
use varve_engine::overlay::Overlay;
use varve_engine::page_cache::PageCache;
use varve_engine::reach::{keep_first, Reach};
use varve_engine::scan::{
    admit_edges, edge_adjacency, edge_selection, merged_snapshot, table_events, EdgeFilter,
    EdgeVersions, IidSel,
};
use varve_engine::effects::Effects;
use varve_engine::sorted::{SortedMap, SortedSet};
use varve_engine::sources::{edge_versions, merge_sources};
use varve_engine::state::{
    GraphsState, PageMeta, PersistedTrie, ScanStats, TableCore, TableKind, TrieEntry,
};
use varve_engine::types::{Iid, Instant, Value};
use varve_engine::visible::{AdjDirection, AdjEntry, Payload};

fn us(n: i64) -> Instant {
    Instant::from_micros(n)
}

fn text(t: &str) -> String {
    t.to_string()
}

/// The identity whose first byte is this.
fn raw_iid(first: u8) -> Iid {
    Iid { bits: (first as u128) << 120 }
}

fn iid(n: u128) -> Iid {
    Iid { bits: n }
}

fn members(list: &[Iid]) -> SortedSet<Iid> {
    let mut set = SortedSet::new();
    for i in list {
        set.insert(*i);
    }
    set
}

fn page(min: Iid, max: Iid) -> PageMeta {
    PageMeta {
        path: Vec::new(),
        offset: 0,
        len: 1,
        rows: 1,
        min_iid: min,
        max_iid: max,
        min_system_from: us(1),
        max_system_from: us(1),
        min_valid_from: us(1),
        max_valid_from: us(1),
        min_valid_to: Instant::end_of_time(),
        max_valid_to: Instant::end_of_time(),
        has_erase: false,
    }
}

fn put(id: u128, at: i64) -> Event {
    Event {
        iid: iid(id),
        system_from: us(at),
        valid_from: us(at),
        valid_to: Instant::end_of_time(),
        src: None,
        dst: None,
        op: Op::Put { labels: vec![text("P")], doc: Doc::new() },
    }
}

#[test]
fn set_prune_treats_inverted_page_stats_as_unselected() {
    // A damaged index with min_iid > max_iid: the comparisons for one entity
    // never select such a page, and those for a set must agree.
    let page = page(raw_iid(0x80), raw_iid(0x00));
    let set = members(&[raw_iid(0x40)]);
    assert!(!IidSel::Members(set).selects_page(&page, true));
    assert!(!IidSel::Point(raw_iid(0x40)).selects_page(&page, true));
}

#[test]
fn pages_outside_the_selection_are_not_read() {
    let low = page(iid(0), iid(9));
    assert!(IidSel::All.selects_page(&low, true));
    assert!(!IidSel::All.selects_page(&low, false));
    assert!(IidSel::Point(iid(9)).selects_page(&low, true));
    assert!(!IidSel::Point(iid(10)).selects_page(&low, true));
    assert!(IidSel::Members(members(&[iid(5), iid(50)])).selects_page(&low, true));
    assert!(!IidSel::Members(members(&[iid(50)])).selects_page(&low, true));
}

/// A default graph with one block of two pages and one live node.
fn flushed_and_live() -> GraphsState {
    let mut state = GraphsState::new();
    state.append("default", TableKind::Nodes, put(7, 5)).unwrap();
    let mut table = state.graphs.remove(&text("default")).unwrap();
    table.nodes.tries.push(PersistedTrie {
        entry: TrieEntry { trie_key: text("l00-rc-b00"), row_count: 2, data_len: 2 },
        pages: vec![page(iid(0), iid(9)), page(iid(10), iid(19))],
        labels: None,
        keys: None,
        props: Some(Vec::new()),
    });
    state.graphs.insert(text("default"), table);
    state
}

#[test]
fn a_scan_reads_the_tail_and_the_pages_of_its_selection() {
    let state = flushed_and_live();
    let verdicts = vec![vec![true, true]];
    let scan = |sel: &IidSel| {
        merged_snapshot(&state, "default", TableKind::Nodes, sel, &verdicts, None).unwrap()
    };
    let all = scan(&IidSel::All);
    assert_eq!(all.pages, vec![vec![0, 1]]);
    assert_eq!(all.tail.len(), 1);
    let point = scan(&IidSel::Point(iid(15)));
    assert_eq!(point.pages, vec![vec![1]]);
    assert_eq!(point.tail.len(), 0);
    assert!(matches!(
        merged_snapshot(&state, "nope", TableKind::Nodes, &IidSel::All, &verdicts, None),
        Err(EngineError::UnknownGraph(g)) if g == "nope"
    ));
}

#[test]
fn later_statements_read_the_effects_of_earlier_ones() {
    let mut effects = Effects::new();
    effects.push_node(put(8, 6));
    let mut overlay = Overlay::new();
    overlay.append_effects_to_overlay(&effects).unwrap();
    let plan = merged_snapshot(
        &flushed_and_live(),
        "default",
        TableKind::Nodes,
        &IidSel::All,
        &vec![vec![true, true]],
        Some(overlay.table(TableKind::Nodes)),
    )
    .unwrap();
    assert!(plan.tail.contains_key(&iid(7)) && plan.tail.contains_key(&iid(8)));
}

#[test]
fn a_lazy_scan_lists_its_sources() {
    let state = flushed_and_live();
    let mut stats = ScanStats::new();
    let plan = plan_lazy_scan(
        &state,
        "default",
        TableKind::Nodes,
        true,
        IidSel::All,
        None,
        &vec![false],
        &vec![vec![true, false]],
        &mut stats,
    )
    .unwrap();
    match plan {
        LazyPlan::Lazy(scan) => {
            assert_eq!(scan.tries.len(), 1);
            assert_eq!(scan.tries[0].pages, vec![0]);
            assert_eq!(scan.tails.len(), 1);
            assert_eq!(scan.rows_estimate, 2);
        }
        _ => panic!("there is something to read"),
    }
    // A block that its key filter rules out is counted and left alone.
    let none = plan_lazy_scan(
        &state,
        "default",
        TableKind::Nodes,
        true,
        IidSel::Point(iid(15)),
        None,
        &vec![true],
        &vec![vec![true, true]],
        &mut stats,
    )
    .unwrap();
    assert!(matches!(none, LazyPlan::Empty));
    assert_eq!(stats.blocks_skipped, 1);
    let eager = plan_lazy_scan(
        &state,
        "default",
        TableKind::Nodes,
        false,
        IidSel::All,
        None,
        &vec![false],
        &vec![vec![true, true]],
        &mut stats,
    )
    .unwrap();
    assert!(matches!(eager, LazyPlan::Eager));
}

#[test]
fn candidates_narrow_the_selection() {
    let set = || Some(members(&[iid(1), iid(2)]));
    assert!(matches!(narrow(IidSel::All, set()), IidSel::Members(m) if m.len() == 2));
    // A scan of one entity looks no further.
    assert!(matches!(narrow(IidSel::Point(iid(3)), set()), IidSel::Point(p) if p == iid(3)));
    assert!(matches!(narrow(IidSel::All, None), IidSel::All));
}

#[test]
fn scans_have_their_fixed_columns_first() {
    let fields = scan_fields(TableKind::Edges, vec!["x"]);
    assert!(matches!(fields[0], ScanField::Fixed("_iid", FieldType::Iid)));
    assert!(matches!(fields[5], ScanField::Fixed("_src_iid", FieldType::Iid)));
    assert!(matches!(fields[7], ScanField::Fixed("_labels", FieldType::Texts)));
    assert!(matches!(fields[8], ScanField::Prop("x")));
    assert_eq!(scan_fields::<u8>(TableKind::Nodes, Vec::new()).len(), 6);
}

#[test]
fn blocks_without_a_catalog_get_one() {
    let mut state = flushed_and_live();
    let mut table = state.graphs.remove(&text("default")).unwrap();
    table.nodes.tries[0].props = None;
    state.graphs.insert(text("default"), table);
    assert_eq!(missing_catalogs(&state.graph("default").unwrap().nodes), vec![0]);
    state.fill_catalogs("default", TableKind::Nodes, &vec![(text("l00-rc-b00"), vec![7])]);
    let nodes = &state.graph("default").unwrap().nodes;
    assert!(missing_catalogs(nodes).is_empty());
    assert_eq!(nodes.tries[0].props, Some(vec![7]));
}

/// Drives a merge over sources that are lists of pages.
fn merge(sel: IidSel, mut sources: Vec<Vec<Vec<Event>>>, limit: Option<usize>) -> Vec<Vec<(u128, usize)>> {
    let mut run = ScanMerge::start(sel, sources.len(), limit);
    let mut chunks = Vec::new();
    loop {
        match run.step() {
            ScanAction::Fetch(source) => {
                let page = if sources[source].is_empty() {
                    None
                } else {
                    Some(sources[source].remove(0))
                };
                run.deliver(source, page);
            }
            ScanAction::GoOn => {}
            ScanAction::Entities(list) => {
                chunks.push(list.iter().map(|e| (e.iid.bits, e.rows.len())).collect());
            }
            ScanAction::End => return chunks,
        }
    }
}

#[test]
fn pages_of_all_sources_become_entities_in_order() {
    let blocks = || {
        vec![
            vec![vec![put(1, 2), put(1, 1), put(3, 1)], vec![put(3, 0), put(9, 1)]],
            vec![vec![put(2, 1)]],
            vec![vec![put(1, 5)]],
        ]
    };
    let chunks = merge(IidSel::All, blocks(), None);
    assert_eq!(chunks.concat(), vec![(1, 3), (2, 1), (3, 2), (9, 1)]);
    let some = merge(IidSel::Members(members(&[iid(2), iid(9)])), blocks(), None);
    assert_eq!(some.concat(), vec![(2, 1), (9, 1)]);
}

#[test]
fn a_scan_of_several_chunks_leaves_nothing_out() {
    let old: Vec<Vec<Event>> =
        (0..30u128).map(|p| (0..20).map(|k| put(2 * (20 * p + k), 1)).collect()).collect();
    let new: Vec<Vec<Event>> =
        (0..40u128).map(|p| (0..10).map(|k| put(3 * (10 * p + k), 2)).collect()).collect();
    let chunks = merge(IidSel::All, vec![old, new], Some(1));
    assert!(chunks.len() > 2);
    let found = chunks.concat();
    let want: Vec<(u128, usize)> = (0..1200u128)
        .filter_map(|i| match (i % 2 == 0, i % 3 == 0) {
            (true, true) => Some((i, 2)),
            (false, false) => None,
            _ => Some((i, 1)),
        })
        .collect();
    assert_eq!(found, want);
}

#[test]
fn a_limit_takes_no_more_rows() {
    let mut all = RowLimit::new(None);
    assert_eq!((all.take(5), all.take(6), all.is_reached()), (5, 6, false));
    let mut some = RowLimit::new(Some(7));
    assert_eq!((some.take(5), some.remaining, some.is_reached()), (5, Some(2), false));
    assert_eq!((some.take(5), some.remaining, some.is_reached()), (2, Some(0), true));
    assert_eq!(some.take(5), 0);
    assert!(RowLimit::new(Some(0)).is_reached());
}

#[test]
fn whole_pages_are_kept_and_parts_are_not() {
    let mut cache: PageCache<u8> = PageCache::new(100);
    let mut stats = ScanStats::new();
    assert!(cached_page(&mut cache, &mut stats, "o", 0).is_none());
    page_decoded(&mut cache, &mut stats, text("o"), 0, 9, 3, 10, false);
    assert_eq!(cached_page(&mut cache, &mut stats, "o", 0), Some(&9));
    page_decoded(&mut cache, &mut stats, text("p"), 0, 9, 3, 10, true);
    assert!(cached_page(&mut cache, &mut stats, "p", 0).is_none());
    assert_eq!(stats.block_pages_read, 3);
    assert_eq!(stats.block_events_decoded, 6);
    assert_eq!(stats.block_pages_cached, 1);
    assert_eq!((cache.tick, cache.len(), cache.entries[0].last_used), (4, 1, 3));
    assert!(decodes_in_part(true, false));
    assert!(!decodes_in_part(false, false));
}

fn entry(node: u128, neighbor: u128, edge: u128) -> AdjEntry {
    AdjEntry { node: iid(node), neighbor: iid(neighbor), edge: iid(edge) }
}

/// 1 -> 2 -> 3 -> 1, by the edges 12, 23 and 31.
fn ring(node: Iid) -> Vec<AdjEntry> {
    match node.bits {
        1 => vec![entry(1, 2, 12)],
        2 => vec![entry(2, 3, 23)],
        _ => vec![entry(3, 1, 31)],
    }
}

fn search(hops: usize, nodes: usize, edges: usize) -> Result<Vec<u128>, EngineError> {
    let mut reach = Reach::start(iid(1), hops, nodes, edges);
    while let Some(node) = reach.next()? {
        reach.take_in(&ring(node))?;
    }
    let found = reach.finish();
    Ok(found.entries.iter().map(|e| e.edge.bits).collect())
}

#[test]
fn a_search_finds_the_edges_within_its_hops() {
    assert_eq!(search(0, 10, 10).unwrap(), Vec::<u128>::new());
    assert_eq!(search(1, 10, 10).unwrap(), vec![12]);
    assert_eq!(search(2, 10, 10).unwrap(), vec![12, 23]);
    assert_eq!(search(9, 10, 10).unwrap(), vec![12, 23, 31]);
}

#[test]
fn a_search_keeps_its_budgets() {
    let message = |r: Result<Vec<u128>, EngineError>| match r {
        Err(EngineError::Plan(PlanError::Other(t))) => t,
        other => panic!("{other:?}"),
    };
    assert_eq!(
        message(search(9, 2, 10)),
        "traversal node budget 2 exceeded; make the query more selective"
    );
    assert_eq!(
        message(search(9, 10, 2)),
        "traversal adjacency budget 2 exceeded; make the query more selective"
    );
}

#[test]
fn the_events_of_an_entity_are_kept_once() {
    let mut kept = SortedMap::new();
    keep_first(&mut kept, vec![(iid(1), vec![put(1, 1)])]);
    keep_first(&mut kept, vec![(iid(1), vec![put(1, 9)]), (iid(2), Vec::new())]);
    assert_eq!(kept.len(), 2);
    assert_eq!(kept.get(&iid(1)).unwrap()[0].system_from, us(1));
}

fn edge_put(label: &str, weight: i64) -> Payload {
    let mut doc = Doc::new();
    doc.insert(text("w"), Value::Int(weight));
    Payload { labels: vec![text(label)], doc }
}

#[test]
fn edges_are_followed_by_label_property_and_grant() {
    let versions = |p: Payload| EdgeVersions {
        src: Some(iid(1)),
        dst: Some(iid(2)),
        puts: vec![p],
    };
    let mut merged = SortedMap::new();
    merged.insert(iid(10), versions(edge_put("K", 1)));
    merged.insert(iid(11), versions(edge_put("L", 2)));
    let follow = |filter: &EdgeFilter, dir, budget| edge_adjacency(&merged, filter, dir, budget);
    let any = || EdgeFilter { label: None, props: Vec::new(), visible: None };
    assert_eq!(
        follow(&any(), AdjDirection::Out, None).unwrap(),
        vec![entry(1, 2, 10), entry(1, 2, 11)]
    );
    let only = EdgeFilter { label: Some(text("K")), ..any() };
    assert_eq!(follow(&only, AdjDirection::In, None).unwrap(), vec![entry(2, 1, 10)]);
    let heavy = EdgeFilter { props: vec![(text("w"), Value::Int(2))], ..any() };
    assert_eq!(follow(&heavy, AdjDirection::Out, None).unwrap(), vec![entry(1, 2, 11)]);
    let mut granted = SortedSet::new();
    granted.insert(text("L"));
    let seen = EdgeFilter { visible: Some(granted), ..any() };
    assert_eq!(follow(&seen, AdjDirection::Out, None).unwrap(), vec![entry(1, 2, 11)]);
    assert!(follow(&any(), AdjDirection::Out, Some(1)).is_err());
}

#[test]
fn an_edge_of_several_labels_needs_all_of_them_granted() {
    let both = Payload { labels: vec![text("K"), text("L")], doc: Doc::new() };
    let mut granted = SortedSet::new();
    granted.insert(text("K"));
    let filter = EdgeFilter { label: None, props: Vec::new(), visible: Some(granted) };
    assert!(!filter.admits(&both));
}

#[test]
fn object_keys_name_their_table() {
    let key = object_key("default", "nodes", "", "data", "l00-rc-b00");
    assert!(has_path_prefix(&key, "v1"));
    assert!(is_graph_data_or_meta_key(&key));
    assert!(!is_graph_data_or_meta_key("v1/log/0001"));
    assert!(!has_path_prefix("v10/x", "v1"));
}

#[test]
fn days_are_counted_from_1970() {
    assert_eq!(civil_from_days(0), (1970, 1, 1));
    assert_eq!(civil_from_days(-1), (1969, 12, 31));
    assert_eq!(civil_from_days(18_262), (2020, 1, 1));
    assert_eq!(civil_from_days(11_016), (2000, 2, 29));
}

#[test]
fn division_rounds_down() {
    assert_eq!((div_floor(7, 2), div_floor(-7, 2)), (3, -4));
    assert_eq!((div_floor(7, -2), div_floor(-7, -2)), (-4, 3));
    assert_eq!((div_floor(6, -2), div_floor(0, 5)), (-3, 0));
    assert_eq!(div_floor(i64::MIN, 1), i64::MIN);
}

#[test]
fn a_new_state_has_read_nothing() {
    let stats = GraphsState::new().scan_stats;
    assert_eq!((stats.block_pages_read, stats.block_events_decoded), (0, 0));
    assert_eq!((stats.block_pages_cached, stats.blocks_skipped), (0, 0));
}

#[test]
fn sources_are_merged_from_the_oldest_on() {
    let old = vec![put(1, 2), put(1, 1), put(2, 1)];
    let new = vec![put(1, 4), put(1, 3)];
    let mut tail = SortedMap::new();
    tail.insert(iid(1), vec![put(1, 5), put(1, 6)]);
    tail.insert(iid(3), vec![put(3, 7)]);
    let merged = merge_sources(&vec![old, new], &tail);
    assert_eq!(merged.len(), 3);
    let times: Vec<i64> =
        merged.get(&iid(1)).unwrap().iter().map(|e| e.system_from.us).collect();
    assert_eq!(times, vec![1, 2, 3, 4, 5, 6]);
    assert_eq!(merged.get(&iid(2)).unwrap().len(), 1);
    assert_eq!(merged.get(&iid(3)).unwrap()[0].system_from, us(7));
}

#[test]
fn an_edge_has_the_ends_of_its_first_event() {
    let gone = Event { op: Op::Delete, ..edge(10, 3, 4) };
    let versions = edge_versions(&vec![edge(10, 1, 2), edge(10, 3, 4)], &vec![gone, edge(10, 1, 2)]);
    assert_eq!((versions.src, versions.dst), (Some(iid(1)), Some(iid(2))));
    assert_eq!(versions.puts.len(), 1);
    assert_eq!(versions.puts[0].labels, vec![text("P")]);
}

/// The edges that a lookup finds in a block of one page and a live table, where
/// every event is visible.
fn lookup(core: &TableCore, dir: AdjDirection, anchor: Option<Iid>) -> Vec<AdjEntry> {
    let sel = edge_selection(core, None, dir, anchor);
    let tail = table_events(core, None, &sel);
    let block = admit_edges(vec![edge(20, 1, 3), edge(21, 2, 1)], dir, anchor);
    let merged = merge_sources(&vec![block], &tail);
    let mut versions = SortedMap::new();
    for i in 0..merged.len() {
        let events = merged.value_at(i);
        versions.insert(*merged.key_at(i), edge_versions(events, events));
    }
    let any = EdgeFilter { label: None, props: Vec::new(), visible: None };
    edge_adjacency(&versions, &any, dir, None).unwrap()
}

#[test]
fn a_lookup_from_a_node_gives_its_part_of_all_edges() {
    let mut core = TableCore::new();
    core.live.append(edge(10, 1, 2)).unwrap();
    core.live.append(edge(11, 2, 3)).unwrap();
    for dir in [AdjDirection::Out, AdjDirection::In] {
        let all = lookup(&core, dir, None);
        assert_eq!(all.len(), 4);
        for node in 1..4 {
            let own: Vec<AdjEntry> =
                all.iter().copied().filter(|e| e.node == iid(node)).collect();
            assert_eq!(lookup(&core, dir, Some(iid(node))), own);
        }
    }
}

fn edge(id: u128, src: u128, dst: u128) -> Event {
    Event { src: Some(iid(src)), dst: Some(iid(dst)), ..put(id, 1) }
}

#[test]
fn edges_at_a_node_are_found_from_either_side() {
    let mut core = TableCore::new();
    core.live.append(edge(10, 1, 2)).unwrap();
    core.live.append(edge(11, 2, 3)).unwrap();
    let out = edge_selection(&core, None, AdjDirection::Out, Some(iid(2)));
    assert!(!out.admits(&iid(10)) && out.admits(&iid(11)));
    let into = edge_selection(&core, None, AdjDirection::In, Some(iid(2)));
    assert!(into.admits(&iid(10)) && !into.admits(&iid(11)));
    assert!(matches!(edge_selection(&core, None, AdjDirection::In, None), IidSel::All));
    let page = || vec![edge(10, 1, 2), edge(11, 2, 3)];
    let kept = admit_edges(page(), AdjDirection::Out, Some(iid(1)));
    assert_eq!(kept.len(), 1);
    assert_eq!(kept[0].iid, iid(10));
    assert_eq!(admit_edges(page(), AdjDirection::Out, None).len(), 2);
}

#[test]
fn a_page_gives_the_events_of_the_selection() {
    let page = vec![put(1, 2), put(1, 1), put(2, 1)];
    let kept = IidSel::Point(iid(1)).admit_events(page);
    let times: Vec<i64> = kept.iter().map(|e| e.system_from.us).collect();
    assert_eq!(times, vec![2, 1]);
}
