//! Reading: which graph, which times, which scans, which search.

use varve_engine::ast::{
    Direction, EdgePattern, Expr, Hop, InsertStmt, LabelSpec, NodePattern, PathPattern, Statement,
};
use varve_engine::const_eval::Params;
use varve_engine::error::EngineError;
use varve_engine::match_body::{match_part_body, match_projection_body};
use varve_engine::node::{NodeRole, NodeRoles};
use varve_engine::query::{
    bounds_per_clause, label_filter, parse_mutation_program, plan_fast_path, query_graph,
    query_mode, require_role, require_verify_role, scan_input_for, scan_inputs_for, select_graph,
    ClauseShape, ClauseSpecs, FastKind, FastPath, LabelFilter, PathQuery, Program, QueryAction,
    QueryMode, QueryRun, ScanChoice, ScanSpec, SpecKind, TemporalClauses,
};
use varve_engine::state::GraphsState;
use varve_engine::types::Iid;
use varve_engine::visible::AdjDirection;

fn text(t: &str) -> String {
    t.to_string()
}

fn two_graphs() -> GraphsState {
    let mut state = GraphsState::new();
    state.insert_graph(text("a"));
    state.insert_graph(text("b"));
    state
}

fn insert() -> Statement {
    Statement::Insert(InsertStmt {
        match_part: None,
        paths: Vec::new(),
        valid_from: None,
        valid_to: None,
    })
}

fn program(use_graph: Option<&str>, statements: Vec<Statement>) -> Program {
    Program { use_graph: use_graph.map(text), statements }
}

#[test]
fn a_graph_named_twice_must_be_the_same() {
    let select = |field: Option<&str>, named: Option<&str>| {
        select_graph(field.map(text), named.map(text))
    };
    assert_eq!(select(None, None).unwrap(), "default");
    assert_eq!(select(Some("a"), None).unwrap(), "a");
    assert_eq!(select(None, Some("b")).unwrap(), "b");
    assert_eq!(select(Some("a"), Some("a")).unwrap(), "a");
    assert!(matches!(
        select(Some("a"), Some("b")),
        Err(EngineError::GraphConflict { field, use_graph }) if field == "a" && use_graph == "b"
    ));
}

#[test]
fn queries_read_graphs_that_are_there() {
    let state = two_graphs();
    let graph = |field: Option<&str>, p| query_graph(&state, field.map(text), p);
    assert_eq!(graph(Some("b"), program(None, vec![Statement::Query])).unwrap(), "b");
    assert!(matches!(
        graph(Some("nope"), program(None, vec![Statement::Query])),
        Err(EngineError::UnknownGraph(g)) if g == "nope"
    ));
    assert!(matches!(
        graph(Some("__meta"), program(None, vec![Statement::Query])),
        Err(EngineError::Unsupported(_))
    ));
    assert!(matches!(graph(None, program(None, vec![insert()])), Err(EngineError::NotAQuery)));
}

#[test]
fn mutations_are_refused_before_the_writer() {
    let state = two_graphs();
    let parse = |field: Option<&str>, p| parse_mutation_program(&state, field.map(text), p);
    let (graph, stmts) = parse(Some("a"), program(None, vec![insert()])).unwrap();
    assert_eq!((graph.as_str(), stmts.len()), ("a", 1));
    assert!(matches!(
        parse(Some("nope"), program(None, vec![insert()])),
        Err(EngineError::UnknownGraph(g)) if g == "nope"
    ));
    assert!(matches!(
        parse(Some("a"), program(Some("b"), vec![insert()])),
        Err(EngineError::GraphConflict { .. })
    ));
    assert!(matches!(
        parse(None, program(None, vec![Statement::Query])),
        Err(EngineError::NotAMutation)
    ));
    // A graph that the text itself names is looked up when the program runs.
    assert!(parse(None, program(Some("nope"), vec![insert()])).is_ok());
}

#[test]
fn roles_are_required() {
    let writer = NodeRoles::of(&vec![NodeRole::Writer]);
    assert!(require_role(&writer, NodeRole::Writer).is_ok());
    assert!(matches!(
        require_role(&writer, NodeRole::Query),
        Err(EngineError::RoleDisabled(NodeRole::Query))
    ));
    assert!(require_verify_role(&NodeRoles::all()).is_ok());
}

#[test]
fn the_nearest_time_clause_counts() {
    let none = TemporalClauses { valid: None, system: None };
    let clauses = vec![
        ClauseShape::Match {
            optional: false,
            paths: 1,
            temporal: TemporalClauses { valid: Some(5), system: None },
        },
        ClauseShape::Filter { exists: true },
        ClauseShape::Filter { exists: false },
        ClauseShape::Match { optional: false, paths: 1, temporal: none },
    ];
    let query = TemporalClauses { valid: Some(3), system: None };
    let bounds = bounds_per_clause(&clauses, &query, 9);
    let pairs: Vec<(i32, i32)> = bounds.iter().map(|b| (b.valid, b.system)).collect();
    assert_eq!(pairs, vec![(5, 9), (5, 9), (3, 9)]);
}

#[test]
fn one_label_is_a_filter_of_its_own() {
    assert!(matches!(
        label_filter(&LabelSpec::All(vec![text("A")])),
        LabelFilter::Single(l) if l == "A"
    ));
    assert!(matches!(
        label_filter(&LabelSpec::All(vec![text("A"), text("B")])),
        LabelFilter::All(l) if l.len() == 2
    ));
    assert!(matches!(
        label_filter(&LabelSpec::Any(vec![text("A")])),
        LabelFilter::Any(l) if l.len() == 1
    ));
}

fn node_spec(var: &str, point: Option<u128>) -> ScanSpec {
    ScanSpec {
        var: text(var),
        kind: SpecKind::Node {
            labels: LabelSpec::All(Vec::new()),
            iid_point: point.map(|bits| Iid { bits }),
        },
    }
}

fn edge_spec(var: &str, label: &str) -> ScanSpec {
    ScanSpec {
        var: text(var),
        kind: SpecKind::Edge { label: text(label), direction: Direction::Out },
    }
}

fn path(hops: usize) -> PathPattern {
    let node = || NodePattern {
        var: None,
        labels: LabelSpec::All(Vec::new()),
        props: Vec::new(),
    };
    let hop = || Hop {
        edge: EdgePattern {
            var: None,
            label: text("K"),
            direction: Direction::Out,
            props: Vec::new(),
            quantified: false,
        },
        node: node(),
    };
    PathPattern { var: None, start: node(), hops: (0..hops).map(|_| hop()).collect() }
}

fn returning(item: Expr) -> Result<PathQuery, EngineError> {
    Ok(PathQuery { paths: vec![path(2)], conjuncts: None, items: vec![item] })
}

fn two_hops(second: &str) -> Vec<ScanSpec> {
    vec![
        node_spec("a", Some(7)),
        edge_spec("e", "K"),
        node_spec("b", None),
        edge_spec("f", second),
        node_spec("c", None),
    ]
}

#[test]
fn a_path_from_a_known_node_is_searched() {
    let params = Params::new();
    let found = plan_fast_path(&two_hops("K"), returning(Expr::Var(text("c"))), &params);
    assert!(matches!(
        found,
        Ok(Some(FastPath::Fixed { anchor: Iid { bits: 7 }, label, direction: AdjDirection::Out, hops: 2 }))
            if label == "K"
    ));
    // Hops of two labels, or a query that reads an edge, are scanned.
    assert!(matches!(
        plan_fast_path(&two_hops("L"), returning(Expr::Var(text("c"))), &params),
        Ok(None)
    ));
    assert!(matches!(
        plan_fast_path(&two_hops("K"), returning(Expr::Var(text("e"))), &params),
        Ok(None)
    ));
    let mut unknown = two_hops("K");
    unknown[0] = node_spec("a", None);
    assert!(matches!(
        plan_fast_path(&unknown, returning(Expr::Var(text("c"))), &params),
        Ok(None)
    ));
}

#[test]
fn a_repeated_hop_is_searched_level_by_level() {
    let specs = vec![
        node_spec("a", Some(7)),
        ScanSpec {
            var: text("e"),
            kind: SpecKind::Expand {
                label: text("K"),
                direction: Direction::In,
                props: Vec::new(),
                max: 4,
            },
        },
        node_spec("b", None),
    ];
    assert!(matches!(
        plan_fast_path(&specs, returning(Expr::Var(text("b"))), &Params::new()),
        Ok(Some(FastPath::Quantified { levels: 4, direction: AdjDirection::In, .. }))
    ));
}

#[test]
fn scans_follow_what_a_search_found() {
    let params = Params::new();
    let edge = edge_spec("e", "K");
    assert!(matches!(
        scan_input_for(&edge.kind, &params, None),
        Ok(ScanChoice::Edges { label }) if label == "K"
    ));
    assert!(matches!(
        scan_input_for(&edge.kind, &params, Some(FastKind::FixedEdges)),
        Ok(ScanChoice::FoundEdges)
    ));
    let clauses = vec![ClauseSpecs {
        specs: vec![node_spec("a", None), edge_spec("e", "K")],
        exists: vec![vec![node_spec("x", None)]],
    }];
    let fast = vec![Some(FastKind::FixedEdges)];
    let refs = scan_inputs_for(&clauses, 1, Some(&fast)).unwrap();
    let got: Vec<_> = refs[0].iter().map(|r| (r.exists, r.spec, r.fast)).collect();
    assert_eq!(
        got,
        vec![
            (None, 0, Some(FastKind::FixedEdges)),
            (None, 1, Some(FastKind::FixedEdges)),
            (Some(0), 0, None)
        ]
    );
    assert!(matches!(
        scan_inputs_for(&clauses, 2, None),
        Err(EngineError::Unsupported(t)) if t == "internal: clause specs/bounds length mismatch"
    ));
    assert!(matches!(
        scan_inputs_for(&clauses, 1, Some(&Vec::new())),
        Err(EngineError::Unsupported(t))
            if t == "internal: clause specs/fast paths length mismatch"
    ));
}

#[test]
fn only_a_single_path_is_searched() {
    let none: TemporalClauses<u8> = TemporalClauses { valid: None, system: None };
    let one = |optional| vec![ClauseShape::Match { optional, paths: 1, temporal: none }];
    assert_eq!(query_mode(0, &one(false), 1), QueryMode::TrySearch);
    assert_eq!(query_mode(0, &one(true), 1), QueryMode::Plain);
    assert_eq!(query_mode(1, &one(false), 1), QueryMode::Union);
}

#[test]
fn all_parts_are_planned_before_any_is_evaluated() {
    let mut run = QueryRun::start(1);
    let mut seen = vec![format!("{:?}", run.current)];
    while let Some(action) = run.step(Ok(())).unwrap() {
        seen.push(format!("{action:?}"));
    }
    let want: Vec<String> = [
        QueryAction::Plan(0),
        QueryAction::Plan(1),
        QueryAction::Evaluate(0),
        QueryAction::Evaluate(1),
        QueryAction::Unite,
    ]
    .iter()
    .map(|a| format!("{a:?}"))
    .collect();
    assert_eq!(seen, want);
    let mut alone = QueryRun::start(0);
    assert_eq!(alone.step(Ok(())).unwrap(), Some(QueryAction::Stream));
    assert_eq!(alone.step(Ok(())).unwrap(), None);
    let mut failing = QueryRun::start(0);
    assert!(matches!(
        failing.step(Err(EngineError::NotAQuery)),
        Err(EngineError::NotAQuery)
    ));
}

#[test]
fn matched_variables_are_returned_by_identity() {
    let body = match_part_body(&vec![text("a"), text("b")]);
    assert_eq!(body.items.len(), 2);
    let projected = match_projection_body(&vec![text("a")], vec![(Expr::Other, None)]);
    assert_eq!(projected.items.len(), 2);
}
