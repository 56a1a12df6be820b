//! Applying the records of the log.

use varve_engine::doc::Doc;
use varve_engine::error::{EngineError, IndexError};
use varve_engine::event::{Event, Op};
use varve_engine::replay::{
    apply_decoded_log_record, decode_log_record, DecodedLogRecord, DecodedTableEffects,
    RawLogRecord, RawTableEffects,
};
use varve_engine::state::{
    GraphsState, TableKind, DEFAULT_GRAPH, EDGES_TABLE, META_GRAPH, NODES_TABLE,
};
use varve_engine::types::{Iid, Instant, Value};

fn iid(table: &str, id: u8) -> Iid {
    let base: u128 = if table == NODES_TABLE { 1 } else { 2 };
    Iid { bits: (base << 64) + id as u128 }
}

fn put_event(id: u8) -> Event {
    put_event_for(NODES_TABLE, id, 1)
}

fn put_event_for(table: &str, id: u8, system_time_us: i64) -> Event {
    Event {
        iid: iid(table, id),
        system_from: Instant::from_micros(system_time_us),
        valid_from: Instant::from_micros(system_time_us),
        valid_to: Instant::end_of_time(),
        src: None,
        dst: None,
        op: Op::Put { labels: vec!["P".to_string()], doc: Doc::new() },
    }
}

fn name_iid(name: &str) -> Iid {
    let mut bits: u128 = 7;
    for b in name.bytes() {
        bits = bits.wrapping_mul(257).wrapping_add(b as u128);
    }
    Iid { bits }
}

fn catalog_event(name: &str, op: Op) -> Event {
    Event {
        iid: name_iid(name),
        system_from: Instant::from_micros(1),
        valid_from: Instant::from_micros(1),
        valid_to: Instant::end_of_time(),
        src: None,
        dst: None,
        op,
    }
}

fn decoded_catalog_put(name: &str) -> DecodedLogRecord {
    let mut doc = Doc::new();
    doc.insert("_id".to_string(), Value::Str(name.to_string()));
    decoded_catalog_event(catalog_event(
        name,
        Op::Put { labels: vec!["Graph".to_string()], doc },
    ))
}

fn decoded_catalog_delete(name: &str) -> DecodedLogRecord {
    decoded_catalog_event(catalog_event(name, Op::Delete))
}

fn decoded_catalog_erase(name: &str) -> DecodedLogRecord {
    decoded_catalog_event(catalog_event(name, Op::Erase))
}

fn decoded_catalog_event(event: Event) -> DecodedLogRecord {
    DecodedLogRecord {
        tx_id: 1,
        system_time: Instant::from_micros(1),
        effects: vec![DecodedTableEffects {
            graph: META_GRAPH.to_string(),
            table: TableKind::Nodes,
            events: vec![event],
        }],
    }
}

#[test]
fn malformed_later_effect_cannot_partially_apply_a_record() {
    let good = RawTableEffects {
        graph: DEFAULT_GRAPH.to_string(),
        table: NODES_TABLE.to_string(),
        events: Ok(vec![put_event(1)]),
    };
    let bad = RawTableEffects {
        graph: DEFAULT_GRAPH.to_string(),
        table: EDGES_TABLE.to_string(),
        events: Err("not an event batch".to_string()),
    };
    let record = RawLogRecord { tx_id: 1, system_time_us: 1, effects: vec![good, bad] };
    let mut state = GraphsState::new();
    assert!(decode_log_record(record)
        .and_then(|decoded| apply_decoded_log_record(&mut state, decoded))
        .is_err());
    assert_eq!(state.live_rows(), 0);
}

#[test]
fn later_unknown_graph_cannot_partially_apply_a_record() {
    let mut state = GraphsState::new();
    let record = DecodedLogRecord {
        tx_id: 1,
        system_time: Instant::from_micros(1),
        effects: vec![
            DecodedTableEffects {
                graph: DEFAULT_GRAPH.to_string(),
                table: TableKind::Nodes,
                events: vec![put_event(1)],
            },
            DecodedTableEffects {
                graph: "missing".to_string(),
                table: TableKind::Nodes,
                events: vec![put_event(2)],
            },
        ],
    };
    assert!(matches!(
        apply_decoded_log_record(&mut state, record),
        Err(EngineError::UnknownGraph(graph)) if graph == "missing"
    ));
    assert_eq!(state.live_rows(), 0);
}

#[test]
fn empty_effect_for_unknown_graph_is_an_explicit_error() {
    let mut state = GraphsState::new();
    let record = DecodedLogRecord {
        tx_id: 1,
        system_time: Instant::from_micros(1),
        effects: vec![DecodedTableEffects {
            graph: "missing".to_string(),
            table: TableKind::Nodes,
            events: Vec::new(),
        }],
    };
    assert!(matches!(
        apply_decoded_log_record(&mut state, record),
        Err(EngineError::UnknownGraph(graph)) if graph == "missing"
    ));
    assert_eq!(state.live_rows(), 0);
}

#[test]
fn later_out_of_order_effect_cannot_partially_apply_a_record() {
    let mut state = GraphsState::new();
    let record = DecodedLogRecord {
        tx_id: 1,
        system_time: Instant::from_micros(2),
        effects: vec![
            DecodedTableEffects {
                graph: DEFAULT_GRAPH.to_string(),
                table: TableKind::Nodes,
                events: vec![put_event_for(NODES_TABLE, 1, 2)],
            },
            DecodedTableEffects {
                graph: DEFAULT_GRAPH.to_string(),
                table: TableKind::Nodes,
                events: vec![put_event_for(NODES_TABLE, 2, 1)],
            },
        ],
    };
    assert!(matches!(
        apply_decoded_log_record(&mut state, record),
        Err(EngineError::Index(IndexError::OutOfOrderEvent { .. }))
    ));
    assert_eq!(state.live_rows(), 0);
}

#[test]
fn catalog_put_and_delete_change_the_graph_map() {
    let mut state = GraphsState::new();
    apply_decoded_log_record(&mut state, decoded_catalog_put("tenant_a")).unwrap();
    assert!(state.graph("tenant_a").is_some());
    apply_decoded_log_record(&mut state, decoded_catalog_delete("tenant_a")).unwrap();
    assert!(state.graph("tenant_a").is_none());
}

#[test]
fn catalog_erase_cleans_up_the_iid_map_and_reserved_names_stay_reserved() {
    let mut state = GraphsState::new();
    apply_decoded_log_record(&mut state, decoded_catalog_put("tenant_a")).unwrap();
    assert_eq!(state.catalog_graphs.len(), 1);

    apply_decoded_log_record(&mut state, decoded_catalog_erase("tenant_a")).unwrap();
    assert!(state.graph("tenant_a").is_none());
    assert_eq!(state.catalog_graphs.len(), 0);

    apply_decoded_log_record(&mut state, decoded_catalog_put(DEFAULT_GRAPH)).unwrap();
    apply_decoded_log_record(&mut state, decoded_catalog_put(META_GRAPH)).unwrap();
    assert!(state.graph(DEFAULT_GRAPH).is_some());
    assert!(state.graph(META_GRAPH).is_some());
    assert_eq!(state.catalog_graphs.len(), 0);
}

#[test]
fn empty_graph_falls_back_to_default_and_routes_nodes_and_edges() {
    let record = RawLogRecord {
        tx_id: 1,
        system_time_us: 1,
        effects: vec![
            RawTableEffects {
                graph: String::new(),
                table: NODES_TABLE.to_string(),
                events: Ok(vec![put_event_for(NODES_TABLE, 1, 1)]),
            },
            RawTableEffects {
                graph: String::new(),
                table: EDGES_TABLE.to_string(),
                events: Ok(vec![put_event_for(EDGES_TABLE, 2, 1)]),
            },
        ],
    };
    let mut state = GraphsState::new();
    let decoded = decode_log_record(record).unwrap();
    apply_decoded_log_record(&mut state, decoded).unwrap();
    let default = state.graph(DEFAULT_GRAPH).unwrap();
    assert_eq!(default.nodes.live.event_count(), 1);
    assert_eq!(default.edges.live.event_count(), 1);
}

#[test]
fn an_unknown_table_fails_the_record() {
    let record = RawLogRecord {
        tx_id: 1,
        system_time_us: 1,
        effects: vec![RawTableEffects {
            graph: String::new(),
            table: "widgets".to_string(),
            events: Ok(Vec::new()),
        }],
    };
    assert!(matches!(
        decode_log_record(record),
        Err(EngineError::UnknownTable(table)) if table == "widgets"
    ));
}

#[test]
fn effects_on_the_policy_change_its_number() {
    let mut state = GraphsState::new();
    let record = DecodedLogRecord {
        tx_id: 1,
        system_time: Instant::from_micros(1),
        effects: vec![DecodedTableEffects {
            graph: "__security".to_string(),
            table: TableKind::Nodes,
            events: vec![put_event(1)],
        }],
    };
    assert_eq!(state.security_epoch, 0);
    apply_decoded_log_record(&mut state, record).unwrap();
    assert_eq!(state.security_epoch, 1);
}
