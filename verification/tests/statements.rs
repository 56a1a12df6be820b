//! Resolving statements into effects.

use varve_engine::assign::{
    check_set_items, read_set_row, resolve_set, set_columns, value_from_batch, value_from_cell, Cell,
    SetRow,
};
use varve_engine::ast::{
    Direction, EdgePattern, Expr, GraphStmt, Hop, InsertStmt, LabelSpec, Literal, MutKind,
    MutateStmt, NodePattern, PathPattern, RemoveItem, SetItem,
};
use varve_engine::bindings::{
    edge_endpoints_from_match_row, match_binding_vars, row_bindings, table_for_binding, BindingKind,
    Kinds, Row,
};
use varve_engine::const_eval::{const_value, Params};
use varve_engine::ddl::resolve_graph_stmt;
use varve_engine::delete::{mutation_name, mutation_valid_from, resolve_delete};
use varve_engine::doc::Doc;
use varve_engine::effects::CatalogOp;
use varve_engine::error::{EngineError, PlanError};
use varve_engine::event::Op;
use varve_engine::ingest::{
    admit_ingest, check_ingest_graph, plan_ingest, resolve_ingest, EdgePut, NodePut,
};
use varve_engine::insert::{insert_valid_range, plan_insert, resolve_insert, stored_labels};
use varve_engine::sorted::SortedMap;
use varve_engine::state::{GraphsState, TableKind};
use varve_engine::types::{Iid, Instant, Value};
use varve_engine::update::{label_delta, resolve_remove, set_value_alias};
use varve_engine::visible::{AdjDirection, AdjEntry, IncidentEdges, Payload, Visible};

fn us(n: i64) -> Instant {
    Instant::from_micros(n)
}

fn iid(n: u128) -> Iid {
    Iid { bits: n }
}

fn text(t: &str) -> String {
    t.to_string()
}

fn number(n: i64) -> Expr {
    Expr::Literal(Literal::Int(n))
}

fn string(t: &str) -> Expr {
    Expr::Literal(Literal::Str(text(t)))
}

fn node(var: Option<&str>, labels: &[&str], props: Vec<(String, Expr)>) -> NodePattern {
    NodePattern {
        var: var.map(text),
        labels: LabelSpec::All(labels.iter().map(|l| text(l)).collect()),
        props,
    }
}

fn hop(var: Option<&str>, label: &str, direction: Direction, to: NodePattern) -> Hop {
    Hop {
        edge: EdgePattern {
            var: var.map(text),
            label: text(label),
            direction,
            props: Vec::new(),
            quantified: false,
        },
        node: to,
    }
}

fn path(start: NodePattern, hops: Vec<Hop>) -> PathPattern {
    PathPattern { var: None, start, hops }
}

fn insert(paths: Vec<PathPattern>) -> InsertStmt {
    InsertStmt { match_part: None, paths, valid_from: None, valid_to: None }
}

fn row(binds: &[(&str, u128)]) -> Row {
    let mut r: Row = SortedMap::new();
    for (var, id) in binds {
        r.insert(text(var), iid(*id));
    }
    r
}

fn kinds(list: &[(&str, BindingKind)]) -> Kinds {
    let mut r: Kinds = SortedMap::new();
    for (var, kind) in list {
        r.insert(text(var), *kind);
    }
    r
}

fn doc(entries: &[(&str, i64)]) -> Doc {
    let mut d = Doc::new();
    for (name, n) in entries {
        d.insert(text(name), Value::Int(*n));
    }
    d
}

fn payload(labels: &[&str], entries: &[(&str, i64)]) -> Payload {
    Payload { labels: labels.iter().map(|l| text(l)).collect(), doc: doc(entries) }
}

fn shown<T: std::fmt::Debug>(value: &T) -> String {
    format!("{value:?}")
}

#[test]
fn an_inserted_edge_joins_the_nodes_before_it() {
    let stmt = insert(vec![path(
        node(Some("a"), &["P"], vec![(text("_id"), number(1))]),
        vec![hop(None, "KNOWS", Direction::In, node(None, &["Q"], Vec::new()))],
    )]);
    let plan = plan_insert(&stmt, &Vec::new(), &SortedMap::new(), &Params::new(), 7, 0);
    assert_eq!(plan.ids.len(), 3);
    assert_eq!(plan.ids[0].table, TableKind::Nodes);
    assert!(plan.ids[0].id.same(&Value::Int(1)));
    assert_eq!(plan.ids[1].table, TableKind::Nodes);
    assert!(plan.ids[1].id.same(&Value::Str(text("varve:gen:7:1"))));
    assert_eq!(plan.ids[2].table, TableKind::Edges);
    assert!(plan.ids[2].id.same(&Value::Str(text("varve:gen:7:2"))));
    let derived = vec![Ok(iid(10)), Ok(iid(11)), Ok(iid(12))];
    let effects = resolve_insert(plan, &derived, us(5), us(5), Instant::end_of_time()).unwrap();
    assert_eq!(effects.nodes.len(), 2);
    assert_eq!(effects.nodes[0].iid, iid(10));
    assert_eq!(effects.nodes[1].iid, iid(11));
    assert_eq!(effects.edges.len(), 1);
    assert_eq!(effects.edges[0].iid, iid(12));
    // An incoming hop leads from its node to the one before it.
    assert_eq!(effects.edges[0].src, Some(iid(11)));
    assert_eq!(effects.edges[0].dst, Some(iid(10)));
    assert_eq!(effects.edges[0].system_from, us(5));
    assert!(matches!(&effects.edges[0].op, Op::Put { labels, .. } if labels == &["KNOWS"]));
    assert_eq!(effects.side_effects.nodes_created, 2);
    assert_eq!(effects.side_effects.relationships_created, 1);
}

#[test]
fn later_statements_of_a_transaction_generate_later_identifiers() {
    let stmt = insert(vec![path(node(None, &["P"], Vec::new()), Vec::new())]);
    let plan = plan_insert(&stmt, &Vec::new(), &SortedMap::new(), &Params::new(), 7, 3);
    assert!(plan.ids[0].id.same(&Value::Str(text("varve:gen:7:3"))));
}

#[test]
fn variables_are_reused_within_a_statement() {
    let stmt = insert(vec![
        path(node(Some("a"), &["P"], Vec::new()), Vec::new()),
        path(
            node(Some("a"), &[], Vec::new()),
            vec![hop(None, "K", Direction::Out, node(Some("a"), &[], Vec::new()))],
        ),
    ]);
    let plan = plan_insert(&stmt, &Vec::new(), &SortedMap::new(), &Params::new(), 1, 0);
    let derived = vec![Ok(iid(1)), Ok(iid(2))];
    let effects = resolve_insert(plan, &derived, us(1), us(1), us(9)).unwrap();
    assert_eq!(effects.nodes.len(), 1);
    assert_eq!(effects.edges[0].src, Some(iid(1)));
    assert_eq!(effects.edges[0].dst, Some(iid(1)));
}

#[test]
fn insert_binding_faults_are_named() {
    let fault = |paths: Vec<PathPattern>| {
        plan_insert(&insert(paths), &Vec::new(), &SortedMap::new(), &Params::new(), 1, 0)
            .outcome
            .unwrap_err()
    };
    assert!(matches!(
        fault(vec![path(node(Some("x"), &[], Vec::new()), Vec::new())]),
        EngineError::UnboundVariable(v) if v == "x"
    ));
    assert!(matches!(
        fault(vec![
            path(node(Some("x"), &["P"], Vec::new()), Vec::new()),
            path(node(Some("x"), &["P"], Vec::new()), Vec::new()),
        ]),
        EngineError::AlreadyBoundVariable(v) if v == "x"
    ));
    assert!(matches!(
        stored_labels(&LabelSpec::Any(vec![text("A")])),
        Err(EngineError::Unsupported(t))
            if t == "label alternation is not supported when writing labels"
    ));
}

#[test]
fn a_refused_identifier_fails_the_insertion() {
    let stmt = insert(vec![path(node(None, &["P"], Vec::new()), Vec::new())]);
    let plan = plan_insert(&stmt, &Vec::new(), &SortedMap::new(), &Params::new(), 1, 0);
    let derived = vec![Err(text("no such identifier"))];
    assert!(matches!(
        resolve_insert(plan, &derived, us(1), us(1), us(2)),
        Err(EngineError::Type(t)) if t == "no such identifier"
    ));
}

#[test]
fn a_matched_insertion_runs_once_for_each_row() {
    let stmt = InsertStmt {
        match_part: Some(Vec::new()),
        paths: vec![path(
            node(Some("a"), &[], Vec::new()),
            vec![hop(None, "K", Direction::Out, node(Some("b"), &[], Vec::new()))],
        )],
        valid_from: None,
        valid_to: None,
    };
    let rows = vec![row(&[("a", 1), ("b", 3)]), row(&[("a", 2), ("b", 3)])];
    let k = kinds(&[("a", BindingKind::Node), ("b", BindingKind::Node)]);
    let plan = plan_insert(&stmt, &rows, &k, &Params::new(), 4, 0);
    let effects =
        resolve_insert(plan, &vec![Ok(iid(8)), Ok(iid(9))], us(1), us(1), us(2)).unwrap();
    assert!(effects.nodes.is_empty());
    let ends: Vec<_> = effects.edges.iter().map(|e| (e.src, e.dst)).collect();
    assert_eq!(ends, vec![(Some(iid(1)), Some(iid(3))), (Some(iid(2)), Some(iid(3)))]);
    // An edge variable cannot stand where a node is wanted.
    let bad = kinds(&[("a", BindingKind::Edge), ("b", BindingKind::Node)]);
    assert!(matches!(
        plan_insert(&stmt, &rows, &bad, &Params::new(), 4, 0).outcome,
        Err(EngineError::Unsupported(t))
            if t == "INSERT node position bound to edge variable 'a'"
    ));
}

#[test]
fn valid_ranges_default_to_now_and_must_not_be_empty() {
    let mut stmt = insert(Vec::new());
    assert_eq!(insert_valid_range(&stmt, us(5)).unwrap(), (us(5), Instant::end_of_time()));
    stmt.valid_from = Some(us(1));
    stmt.valid_to = Some(us(2));
    assert_eq!(insert_valid_range(&stmt, us(5)).unwrap(), (us(1), us(2)));
    stmt.valid_from = None;
    assert!(matches!(
        insert_valid_range(&stmt, us(5)),
        Err(EngineError::InvalidValidRange { from, to }) if from == us(5) && to == us(2)
    ));
}

#[test]
fn constants_are_literals_parameters_and_negations() {
    let mut params = Params::new();
    params.set(text("p"), Value::Int(4));
    let value = |e: &Expr| const_value(e, &params);
    assert!(value(&number(3)).unwrap().same(&Value::Int(3)));
    assert!(value(&Expr::Param(text("p"))).unwrap().same(&Value::Int(4)));
    assert!(value(&Expr::Neg(Box::new(number(3)))).unwrap().same(&Value::Int(-3)));
    assert!(matches!(
        value(&Expr::Param(text("q"))),
        Err(EngineError::Plan(PlanError::MissingParam(t))) if t == "q"
    ));
    assert!(matches!(
        value(&Expr::Neg(Box::new(string("x")))),
        Err(EngineError::Unsupported(t))
            if t == "unary negative requires numeric constant expression"
    ));
    assert!(matches!(
        value(&Expr::Var(text("v"))),
        Err(EngineError::Unsupported(t)) if t
            == "constant expressions support only literal, parameter, or unary negative numeric literal"
    ));
}

#[test]
fn match_variables_have_one_kind() {
    let paths = vec![path(
        node(Some("a"), &[], Vec::new()),
        vec![hop(Some("e"), "K", Direction::Out, node(Some("b"), &[], Vec::new()))],
    )];
    let (vars, k) = match_binding_vars(&paths).unwrap();
    assert_eq!(vars, vec!["a", "e", "b"]);
    assert_eq!(k.get(&text("e")), Some(&BindingKind::Edge));
    assert_eq!(table_for_binding(BindingKind::Edge), TableKind::Edges);
    let clash = vec![path(
        node(Some("a"), &[], Vec::new()),
        vec![hop(Some("a"), "K", Direction::Out, node(None, &[], Vec::new()))],
    )];
    assert!(matches!(
        match_binding_vars(&clash),
        Err(EngineError::Unsupported(t))
            if t == "mutation MATCH variable a bound to multiple element kinds"
    ));
    assert_eq!(
        edge_endpoints_from_match_row(&paths, "e", &row(&[("a", 1), ("b", 2)])).unwrap(),
        (iid(1), iid(2))
    );
}

fn delete(target: &str, detach: bool, kind: MutKind) -> MutateStmt {
    MutateStmt {
        match_part: vec![path(node(Some(target), &[], Vec::new()), Vec::new())],
        target: text(target),
        kind,
        detach,
    }
}

fn one_node_with_an_edge() -> (Visible, IncidentEdges) {
    let mut visible = Visible::new();
    visible.put(BindingKind::Node, iid(1), payload(&["P"], &[("_id", 1), ("x", 2)]));
    visible.put(BindingKind::Edge, iid(9), payload(&["K"], &[("_id", 3)]));
    let mut incident = IncidentEdges::new();
    incident.put(
        AdjDirection::Out,
        iid(1),
        vec![AdjEntry { node: iid(1), neighbor: iid(2), edge: iid(9) }],
    );
    (visible, incident)
}

#[test]
fn a_connected_node_is_deleted_only_when_detached() {
    let (visible, incident) = one_node_with_an_edge();
    let rows = vec![row(&[("n", 1)])];
    let k = kinds(&[("n", BindingKind::Node)]);
    assert!(matches!(
        resolve_delete(
            &delete("n", false, MutKind::Delete),
            &rows,
            &k,
            &visible,
            &incident,
            us(7)
        ),
        Err(EngineError::StillConnected(1))
    ));
    let effects =
        resolve_delete(&delete("n", true, MutKind::Delete), &rows, &k, &visible, &incident, us(7))
            .unwrap();
    assert_eq!(effects.edges.len(), 1);
    assert_eq!(effects.edges[0].iid, iid(9));
    assert_eq!(effects.edges[0].src, Some(iid(1)));
    assert_eq!(effects.edges[0].dst, Some(iid(2)));
    assert!(matches!(effects.edges[0].op, Op::Delete));
    assert_eq!(effects.nodes[0].iid, iid(1));
    assert_eq!(effects.nodes[0].valid_from, us(7));
    assert_eq!(effects.side_effects.nodes_deleted, 1);
    assert_eq!(effects.side_effects.relationships_deleted, 1);
}

#[test]
fn erasing_reaches_back_to_the_beginning() {
    assert_eq!(mutation_valid_from(MutKind::Delete, us(7)), us(7));
    assert_eq!(mutation_valid_from(MutKind::Erase, us(7)), Instant::earliest());
    assert_eq!(mutation_name(MutKind::Erase), "ERASE");
    let (visible, incident) = one_node_with_an_edge();
    let effects = resolve_delete(
        &delete("n", true, MutKind::Erase),
        &vec![row(&[("n", 1)])],
        &kinds(&[("n", BindingKind::Node)]),
        &visible,
        &incident,
        us(7),
    )
    .unwrap();
    assert!(matches!(effects.nodes[0].op, Op::Erase));
    assert_eq!(effects.nodes[0].valid_from, Instant::earliest());
}

#[test]
fn deleting_nothing_has_no_effects() {
    let effects = resolve_delete(
        &delete("n", false, MutKind::Delete),
        &Vec::new(),
        &kinds(&[("n", BindingKind::Node)]),
        &Visible::new(),
        &IncidentEdges::new(),
        us(7),
    )
    .unwrap();
    assert!(effects.nodes.is_empty() && effects.edges.is_empty());
    assert!(effects.side_effects.is_empty());
}

#[test]
fn rows_bind_the_variables_that_have_an_identifier() {
    let vars = vec![text("a"), text("b"), text("c")];
    let r = row_bindings(&vars, &vec![Some(iid(1)), None, Some(iid(3))]);
    assert_eq!(r.len(), 2);
    assert_eq!(r.get(&text("a")).copied(), Some(iid(1)));
    assert!(r.get(&text("b")).is_none());
    assert_eq!(r.get(&text("c")).copied(), Some(iid(3)));
}

#[test]
fn cells_are_read_as_values() {
    assert!(matches!(value_from_cell("c", &Cell::Null), Ok(Value::Null)));
    assert!(matches!(value_from_cell("c", &Cell::Int(-4)), Ok(Value::Int(-4))));
    let half = 0.5f64.to_bits();
    assert!(matches!(value_from_cell("c", &Cell::Float(half)), Ok(Value::Float(b)) if b == half));
    assert!(matches!(value_from_cell("c", &Cell::Str(text("x"))), Ok(Value::Str(s)) if s == "x"));
    assert!(matches!(value_from_cell("c", &Cell::Bool(true)), Ok(Value::Bool(true))));
    assert!(
        matches!(value_from_cell("c", &Cell::Bytes(vec![1, 2])), Ok(Value::Bytes(b)) if b == [1, 2])
    );
    assert_eq!(
        value_from_cell("c", &Cell::Missing).unwrap_err(),
        "SET expression column c missing"
    );
    assert_eq!(
        value_from_cell("c", &Cell::Mismatched(text("Int64"))).unwrap_err(),
        "SET expression array type mismatch for Int64"
    );
    assert_eq!(
        value_from_cell("c", &Cell::Other(text("Date32"))).unwrap_err(),
        "SET expression type Date32"
    );
}

#[test]
fn a_value_is_read_from_the_first_column_of_its_name() {
    let columns = vec![text("x"), text("y"), text("y")];
    let cells = vec![Cell::Int(1), Cell::Int(2), Cell::Int(3)];
    assert!(matches!(value_from_batch(&columns, &cells, "y"), Ok(Value::Int(2))));
    assert_eq!(
        value_from_batch(&columns, &cells, "z").unwrap_err(),
        "SET expression column z missing"
    );
}

#[test]
fn only_properties_of_a_set_have_columns() {
    let items = vec![
        SetItem::Label { var: text("n"), label: text("Q") },
        SetItem::Prop { var: text("n"), prop: text("x") },
        SetItem::Prop { var: text("m"), prop: text("y") },
    ];
    assert_eq!(
        set_columns(&items),
        vec![(1, text("__set_value_1")), (2, text("__set_value_2"))]
    );
    let columns = vec![text("__set_value_1"), text("__set_value_2")];
    let read = read_set_row(
        &vec![text("n"), text("m")],
        &vec![Some(iid(1)), Some(iid(2))],
        3,
        &columns,
        &vec![Cell::Int(7), Cell::Null],
    );
    assert_eq!(read.binds.get(&text("m")).copied(), Some(iid(2)));
    assert_eq!(read.cells.len(), 3);
    assert_eq!(read.cells[0].as_ref().unwrap_err(), "SET expression column __set_value_0 missing");
    assert!(matches!(read.cells[1], Ok(Value::Int(7))));
    assert!(matches!(read.cells[2], Ok(Value::Null)));
    assert!(matches!(
        check_set_items(&items, &kinds(&[("n", BindingKind::Node)])),
        Err(EngineError::UnboundVariable(v)) if v == "m"
    ));
    let both = kinds(&[("m", BindingKind::Node), ("n", BindingKind::Node)]);
    assert!(check_set_items(&items, &both).is_ok());
}

#[test]
fn set_writes_properties_and_labels() {
    let mut visible = Visible::new();
    visible.put(BindingKind::Node, iid(1), payload(&["P"], &[("_id", 1), ("x", 2)]));
    let items = vec![
        SetItem::Prop { var: text("n"), prop: text("x") },
        SetItem::Label { var: text("n"), label: text("Q") },
    ];
    let paths = vec![path(node(Some("n"), &[], Vec::new()), Vec::new())];
    let rows = vec![SetRow {
        binds: row(&[("n", 1)]),
        cells: vec![Ok(Value::Int(5)), Ok(Value::Null)],
    }];
    let effects = resolve_set(
        &items,
        &rows,
        &vec![text("n")],
        &kinds(&[("n", BindingKind::Node)]),
        &paths,
        &visible,
        us(3),
    )
    .unwrap();
    assert_eq!(effects.nodes.len(), 1);
    match &effects.nodes[0].op {
        Op::Put { labels, doc } => {
            assert_eq!(labels, &vec![text("P"), text("Q")]);
            assert!(doc.get("x").unwrap().same(&Value::Int(5)));
        }
        other => panic!("{other:?}"),
    }
    assert_eq!(effects.side_effects.labels_added, 1);
}

#[test]
fn remove_takes_properties_and_labels_away() {
    let mut visible = Visible::new();
    visible.put(BindingKind::Node, iid(1), payload(&["P", "Q"], &[("_id", 1), ("x", 2)]));
    let items = vec![
        RemoveItem::Prop { var: text("n"), prop: text("x") },
        RemoveItem::Label { var: text("n"), label: text("Q") },
    ];
    let paths = vec![path(node(Some("n"), &[], Vec::new()), Vec::new())];
    let effects = resolve_remove(
        &items,
        &vec![row(&[("n", 1)])],
        &kinds(&[("n", BindingKind::Node)]),
        &paths,
        &visible,
        us(3),
    )
    .unwrap();
    match &effects.nodes[0].op {
        Op::Put { labels, doc } => {
            assert_eq!(labels, &vec![text("P")]);
            assert!(doc.get("x").is_none());
        }
        other => panic!("{other:?}"),
    }
    assert_eq!(effects.side_effects.properties_removed, 1);
    assert_eq!(effects.side_effects.labels_removed, 1);
    assert_eq!(set_value_alias(3), "__set_value_3");
    assert_eq!(
        label_delta(&vec![text("A"), text("B")], &vec![text("B"), text("C")]),
        (vec![text("C")], vec![text("A")])
    );
}

#[test]
fn graphs_are_created_and_dropped() {
    let state = GraphsState::new();
    let effects =
        resolve_graph_stmt(&state, &GraphStmt::Create(text("g")), Ok(iid(4)), us(2)).unwrap();
    assert_eq!(effects.nodes.len(), 1);
    assert_eq!(effects.nodes[0].iid, iid(4));
    assert!(matches!(&effects.catalog_ops[0], CatalogOp::CreateGraph(g) if g == "g"));
    assert!(matches!(
        resolve_graph_stmt(&state, &GraphStmt::Create(text("default")), Ok(iid(4)), us(2)),
        Err(EngineError::GraphExists(g)) if g == "default"
    ));
    assert!(matches!(
        resolve_graph_stmt(&state, &GraphStmt::Drop(text("g")), Ok(iid(4)), us(2)),
        Err(EngineError::UnknownGraph(g)) if g == "g"
    ));
    assert!(matches!(
        resolve_graph_stmt(&state, &GraphStmt::Drop(text("default")), Ok(iid(4)), us(2)),
        Err(EngineError::Unsupported(t)) if t == "cannot drop default graph"
    ));
    assert!(matches!(
        resolve_graph_stmt(&state, &GraphStmt::Create(text("__x")), Ok(iid(4)), us(2)),
        Err(EngineError::Unsupported(t))
            if t == "graph names starting with '__' are reserved: __x"
    ));
}

#[test]
fn bulk_loads_become_puts() {
    let nodes = vec![NodePut { labels: vec![text("P")], doc: doc(&[("_id", 1)]) }];
    let edges = vec![EdgePut {
        label: text("K"),
        src: Value::Int(1),
        dst: Value::Int(2),
        doc: Doc::new(),
    }];
    let plan = plan_ingest(nodes, edges, 5);
    let asked: Vec<String> = plan.ids.iter().map(|r| shown(&r.id)).collect();
    assert_eq!(asked[0], shown(&Value::Int(1)));
    let derived = (0..plan.ids.len()).map(|k| Ok(iid(k as u128 + 100))).collect();
    let effects = resolve_ingest(plan, &derived, us(8)).unwrap();
    assert_eq!(effects.nodes.len(), 1);
    assert_eq!(effects.edges.len(), 1);
    assert_eq!(effects.nodes[0].iid, iid(100));
    assert_eq!(effects.nodes[0].valid_from, us(8));
    assert_eq!(effects.nodes[0].valid_to, Instant::end_of_time());
}

#[test]
fn bulk_loads_need_a_graph_that_is_there() {
    let state = GraphsState::new();
    let named = |graph: &str| check_ingest_graph(&state, graph);
    assert!(matches!(named("nope"), Err(EngineError::UnknownGraph(g)) if g == "nope"));
    assert!(matches!(named("__meta"), Err(EngineError::Unsupported(_))));
    assert!(named("default").is_ok());
    let one = || vec![NodePut { labels: Vec::new(), doc: Doc::new() }];
    let taken = |graph: &str, nodes| admit_ingest(&state, &nodes, &Vec::new(), &text(graph));
    assert!(taken("default", one()).is_ok());
    assert!(matches!(taken("default", Vec::new()), Err(EngineError::NotAMutation)));
    assert!(matches!(taken("nope", one()), Err(EngineError::UnknownGraph(_))));
}
