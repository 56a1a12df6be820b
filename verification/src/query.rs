//! Which graph a request is about, and how a query is read off it: the time
//! bounds of each clause, what each element of a pattern is read from, and where
//! a search from the first node takes the place of a scan of all edges.

use crate::ast::{Direction, Expr, LabelSpec, PathPattern, Statement};
use crate::const_eval::{const_spec, const_value, props_negatable, Params};
use crate::error::{EngineError, ErrorView};
use crate::fold::{lemma_try_fold_all, lemma_try_fold_fails, lemma_try_fold_step, try_fold};
use crate::names::{reserved_name, reserved_name_error, validate_user_graph_name};
use crate::node::{NodeRole, NodeRoles};
use crate::state::{GraphsState, StateView, DEFAULT_GRAPH};
use crate::text::{clone_texts, same_text, views};
use crate::types::{Iid, Value, ValueView};
use crate::visible::AdjDirection;
use vstd::prelude::*;

verus! {

/// A parsed program: the graph that it names, if it does, and its statements.
pub struct Program {
    pub use_graph: Option<String>,
    pub statements: Vec<Statement>,
}

/// The graph that a request is about: the one that is named beside the text, the
/// one that the text names, or the default graph. The two must not disagree.
pub open spec fn chosen_graph(field: Option<Seq<char>>, use_graph: Option<Seq<char>>) -> Result<
    Seq<char>,
    ErrorView,
> {
    match (field, use_graph) {
        (Some(f), Some(u)) => if f == u {
            Ok(f)
        } else {
            Err(ErrorView::GraphConflict { field: f, use_graph: u })
        },
        (Some(f), None) => Ok(f),
        (None, Some(u)) => Ok(u),
        (None, None) => Ok(DEFAULT_GRAPH@),
    }
}

pub open spec fn text_of(s: Option<String>) -> Option<Seq<char>> {
    match s {
        Some(t) => Some(t@),
        None => None,
    }
}

pub fn select_graph(field: Option<String>, use_graph: Option<String>) -> (r: Result<
    String,
    EngineError,
>)
    ensures
        match r {
            Ok(g) => chosen_graph(text_of(field), text_of(use_graph)) == Ok::<
                Seq<char>,
                ErrorView,
            >(g@),
            Err(e) => chosen_graph(text_of(field), text_of(use_graph)) == Err::<
                Seq<char>,
                ErrorView,
            >(e@),
        },
{
    match field {
        Some(f) => match use_graph {
            Some(u) => {
                if !same_text(&f, &u) {
                    return Err(EngineError::GraphConflict { field: f, use_graph: u });
                }
                Ok(f)
            },
            None => Ok(f),
        },
        None => match use_graph {
            Some(u) => Ok(u),
            None => Ok(DEFAULT_GRAPH.to_owned()),
        },
    }
}

/// Refuses what this node does not do.
pub fn require_role(roles: &NodeRoles, role: NodeRole) -> (r: Result<(), EngineError>)
    ensures
        match r {
            Ok(()) => roles@.contains(role),
            Err(e) => !roles@.contains(role) && e@ == ErrorView::RoleDisabled(role),
        },
{
    if roles.contains(role) {
        Ok(())
    } else {
        Err(EngineError::RoleDisabled(role))
    }
}

/// The store is checked by a node that writes or answers queries.
pub fn require_verify_role(roles: &NodeRoles) -> (r: Result<(), EngineError>)
    ensures
        match r {
            Ok(()) => roles@.contains(NodeRole::Writer) || roles@.contains(NodeRole::Query),
            Err(e) => !roles@.contains(NodeRole::Writer) && !roles@.contains(NodeRole::Query) && e@
                == ErrorView::RoleDisabled(NodeRole::Query),
        },
{
    if !roles.contains(NodeRole::Writer) && !roles.contains(NodeRole::Query) {
        return Err(EngineError::RoleDisabled(NodeRole::Query));
    }
    Ok(())
}

/// Some statement is a query.
pub open spec fn holds_query(stmts: Seq<Statement>) -> bool {
    exists|i: int| 0 <= i < stmts.len() && #[trigger] stmts[i] is Query
}

fn any_query(stmts: &Vec<Statement>) -> (r: bool)
    ensures
        r == holds_query(stmts@),
{
    let mut i: usize = 0;
    while i < stmts.len()
        invariant
            i <= stmts.len(),
            forall|k: int| 0 <= k < i ==> !(#[trigger] stmts@[k] is Query),
        decreases stmts.len() - i,
    {
        match &stmts[i] {
            Statement::Query => {
                assert(stmts@[i as int] is Query);
                return true;
            },
            _ => {},
        }
        i += 1;
    }
    false
}

/// Why a program is refused before it reaches the writer, if it is. A graph that
/// is named beside the text must be there; one that the text names is looked for
/// by the writer, behind the changes that are on their way.
pub open spec fn mutation_fault(
    s: StateView,
    field: Option<Seq<char>>,
    use_graph: Option<Seq<char>>,
    stmts: Seq<Statement>,
) -> Option<ErrorView> {
    match chosen_graph(field, use_graph) {
        Err(e) => Some(e),
        Ok(graph) => if reserved_name(graph) {
            Some(reserved_name_error(graph))
        } else if field is Some && !s.graphs.dom().contains(graph) {
            Some(ErrorView::UnknownGraph(graph))
        } else if stmts.len() == 0 || holds_query(stmts) {
            Some(ErrorView::NotAMutation)
        } else {
            None
        },
    }
}

/// The graph and the statements of a program that changes something.
pub fn parse_mutation_program(
    state: &GraphsState,
    field: Option<String>,
    program: Program,
) -> (r: Result<(String, Vec<Statement>), EngineError>)
    requires
        state.wf(),
    ensures
        ({
            let fault = mutation_fault(
                state@,
                text_of(field),
                text_of(program.use_graph),
                program.statements@,
            );
            match r {
                Err(e) => fault == Some(e@),
                Ok((graph, stmts)) => fault is None && stmts == program.statements && chosen_graph(
                    text_of(field),
                    text_of(program.use_graph),
                ) == Ok::<Seq<char>, ErrorView>(graph@),
            }
        }),
{
    let named = field.is_some();
    let graph = match select_graph(field, program.use_graph) {
        Ok(graph) => graph,
        Err(e) => {
            return Err(e);
        },
    };
    match validate_user_graph_name(graph.as_str()) {
        Ok(()) => {},
        Err(e) => {
            return Err(e);
        },
    }
    if named && !state.has_graph(graph.as_str()) {
        return Err(EngineError::UnknownGraph(graph));
    }
    if program.statements.len() == 0 || any_query(&program.statements) {
        return Err(EngineError::NotAMutation);
    }
    Ok((graph, program.statements))
}

/// Why a text is not answered as a query, if it is not.
pub open spec fn query_fault(
    s: StateView,
    field: Option<Seq<char>>,
    use_graph: Option<Seq<char>>,
    stmts: Seq<Statement>,
) -> Option<ErrorView> {
    match chosen_graph(field, use_graph) {
        Err(e) => Some(e),
        Ok(graph) => if reserved_name(graph) {
            Some(reserved_name_error(graph))
        } else if !s.graphs.dom().contains(graph) {
            Some(ErrorView::UnknownGraph(graph))
        } else if stmts.len() != 1 || !(stmts[0] is Query) {
            Some(ErrorView::NotAQuery)
        } else {
            None
        },
    }
}

/// The graph that a query reads.
pub fn query_graph(state: &GraphsState, field: Option<String>, program: Program) -> (r: Result<
    String,
    EngineError,
>)
    requires
        state.wf(),
    ensures
        ({
            let fault = query_fault(
                state@,
                text_of(field),
                text_of(program.use_graph),
                program.statements@,
            );
            match r {
                Err(e) => fault == Some(e@),
                Ok(graph) => fault is None && chosen_graph(
                    text_of(field),
                    text_of(program.use_graph),
                ) == Ok::<Seq<char>, ErrorView>(graph@),
            }
        }),
{
    let graph = match select_graph(field, program.use_graph) {
        Ok(graph) => graph,
        Err(e) => {
            return Err(e);
        },
    };
    match validate_user_graph_name(graph.as_str()) {
        Ok(()) => {},
        Err(e) => {
            return Err(e);
        },
    }
    if !state.has_graph(graph.as_str()) {
        return Err(EngineError::UnknownGraph(graph));
    }
    if program.statements.len() != 1 {
        return Err(EngineError::NotAQuery);
    }
    match &program.statements[0] {
        Statement::Query => Ok(graph),
        _ => Err(EngineError::NotAQuery),
    }
}

/// The time clauses of a query or of one `MATCH`, where they are written.
#[derive(Clone, Copy, Debug)]
pub struct TemporalClauses<D> {
    pub valid: Option<D>,
    pub system: Option<D>,
}

/// The times that a clause reads.
#[derive(Clone, Copy, Debug)]
pub struct TemporalBounds<D> {
    pub valid: D,
    pub system: D,
}

/// What is written at the `MATCH` goes first, then what is written at the query,
/// then the present.
pub open spec fn bounds_of<D>(
    query: TemporalClauses<D>,
    own: TemporalClauses<D>,
    now: D,
) -> TemporalBounds<D> {
    TemporalBounds {
        valid: match own.valid {
            Some(d) => d,
            None => match query.valid {
                Some(d) => d,
                None => now,
            },
        },
        system: match own.system {
            Some(d) => d,
            None => match query.system {
                Some(d) => d,
                None => now,
            },
        },
    }
}

pub fn match_bounds<D: Copy>(
    query: &TemporalClauses<D>,
    own: &TemporalClauses<D>,
    now: D,
) -> (r: TemporalBounds<D>)
    ensures
        r == bounds_of(*query, *own, now),
        own.valid matches Some(d) ==> r.valid == d,
        own.valid is None ==> (query.valid matches Some(d) ==> r.valid == d),
        own.valid is None && query.valid is None ==> r.valid == now,
        own.system matches Some(d) ==> r.system == d,
        own.system is None ==> (query.system matches Some(d) ==> r.system == d),
        own.system is None && query.system is None ==> r.system == now,
{
    TemporalBounds {
        valid: match own.valid {
            Some(d) => d,
            None => match query.valid {
                Some(d) => d,
                None => now,
            },
        },
        system: match own.system {
            Some(d) => d,
            None => match query.system {
                Some(d) => d,
                None => now,
            },
        },
    }
}

/// A clause of a query, as far as its bounds and the choice of a search read it.
#[derive(Clone, Copy, Debug)]
pub enum ClauseShape<D> {
    /// So many paths, optional or not, at these times.
    Match { optional: bool, paths: usize, temporal: TemporalClauses<D> },
    /// A condition, with an `EXISTS` among its parts or without.
    Filter { exists: bool },
    Other,
}

/// The time clauses in force behind some clauses: those of the last `MATCH`.
pub open spec fn active_temporal<D>(clauses: Seq<ClauseShape<D>>) -> TemporalClauses<D>
    decreases clauses.len(),
{
    if clauses.len() == 0 {
        TemporalClauses { valid: None, system: None }
    } else {
        match clauses.last() {
            ClauseShape::Match { temporal, .. } => temporal,
            _ => active_temporal(clauses.drop_last()),
        }
    }
}

/// The bounds of the clauses that read something: each `MATCH`, and each
/// condition with an `EXISTS`, which reads at the times of the `MATCH` before it.
pub open spec fn clause_bounds<D>(
    clauses: Seq<ClauseShape<D>>,
    query: TemporalClauses<D>,
    now: D,
) -> Seq<TemporalBounds<D>>
    decreases clauses.len(),
{
    if clauses.len() == 0 {
        Seq::empty()
    } else {
        let before = clause_bounds(clauses.drop_last(), query, now);
        match clauses.last() {
            ClauseShape::Match { temporal, .. } => before.push(bounds_of(query, temporal, now)),
            ClauseShape::Filter { exists } => if exists {
                before.push(bounds_of(query, active_temporal(clauses.drop_last()), now))
            } else {
                before
            },
            ClauseShape::Other => before,
        }
    }
}

/// A `MATCH` that writes a time reads at it. One that writes none reads at the
/// time that the query writes. The present counts only where neither writes one.
/// Each of the two times is settled by itself.
pub proof fn law_bounds_fall_back_to_the_query<D>(
    query: TemporalClauses<D>,
    own: TemporalClauses<D>,
    now: D,
)
    ensures
        ({
            let b = bounds_of(query, own, now);
            &&& (own.valid matches Some(d) ==> b.valid == d)
            &&& (own.valid is None ==> (query.valid matches Some(d) ==> b.valid == d))
            &&& (own.valid is None && query.valid is None ==> b.valid == now)
            &&& (own.system matches Some(d) ==> b.system == d)
            &&& (own.system is None ==> (query.system matches Some(d) ==> b.system == d))
            &&& (own.system is None && query.system is None ==> b.system == now)
        }),
{
}

/// How many of some clauses read something.
pub open spec fn readers<D>(clauses: Seq<ClauseShape<D>>) -> nat
    decreases clauses.len(),
{
    if clauses.len() == 0 {
        0
    } else {
        readers(clauses.drop_last()) + match clauses.last() {
            ClauseShape::Match { .. } => 1nat,
            ClauseShape::Filter { exists } => if exists {
                1nat
            } else {
                0nat
            },
            ClauseShape::Other => 0nat,
        }
    }
}

proof fn lemma_bounds_prefix<D>(
    clauses: Seq<ClauseShape<D>>,
    query: TemporalClauses<D>,
    now: D,
    i: int,
)
    requires
        0 <= i <= clauses.len(),
    ensures
        clause_bounds(clauses, query, now).len() == readers(clauses),
        clause_bounds(clauses.subrange(0, i), query, now).len() == readers(clauses.subrange(0, i)),
        readers(clauses.subrange(0, i)) <= readers(clauses),
        forall|k: int|
            0 <= k < readers(clauses.subrange(0, i)) ==> #[trigger] clause_bounds(
                clauses,
                query,
                now,
            )[k] == clause_bounds(clauses.subrange(0, i), query, now)[k],
    decreases clauses.len(),
{
    if i == clauses.len() {
        assert(clauses.subrange(0, i) =~= clauses);
        if i > 0 {
            let front = clauses.drop_last();
            lemma_bounds_prefix(front, query, now, front.len() as int);
        }
    } else {
        let front = clauses.drop_last();
        lemma_bounds_prefix(front, query, now, i);
        assert(front.subrange(0, i) =~= clauses.subrange(0, i));
    }
}

proof fn lemma_active<D>(clauses: Seq<ClauseShape<D>>, j: int)
    requires
        0 <= j < clauses.len(),
        clauses[j] is Match,
        forall|k: int| j < k < clauses.len() ==> !((#[trigger] clauses[k]) is Match),
    ensures
        clauses[j] matches ClauseShape::Match { temporal, .. } && active_temporal(clauses)
            == temporal,
    decreases clauses.len(),
{
    if j < clauses.len() - 1 {
        assert(!(clauses[clauses.len() - 1] is Match));
        lemma_active(clauses.drop_last(), j);
    }
}

proof fn lemma_none_active<D>(clauses: Seq<ClauseShape<D>>)
    requires
        forall|k: int| 0 <= k < clauses.len() ==> !((#[trigger] clauses[k]) is Match),
    ensures
        active_temporal(clauses).valid is None,
        active_temporal(clauses).system is None,
    decreases clauses.len(),
{
    if clauses.len() > 0 {
        assert(!(clauses[clauses.len() - 1] is Match));
        lemma_none_active(clauses.drop_last());
    }
}

/// Every `MATCH` has bounds of its own, in the order of the clauses: at the
/// times that it writes, else at those that the query writes, else at the
/// present.
pub proof fn law_each_match_reads_at_its_times<D>(
    clauses: Seq<ClauseShape<D>>,
    query: TemporalClauses<D>,
    now: D,
    i: int,
)
    requires
        0 <= i < clauses.len(),
        clauses[i] is Match,
    ensures
        clause_bounds(clauses, query, now).len() == readers(clauses),
        readers(clauses.subrange(0, i)) < readers(clauses),
        clauses[i] matches ClauseShape::Match { temporal, .. } && ({
            let b = clause_bounds(clauses, query, now)[readers(clauses.subrange(0, i)) as int];
            &&& (temporal.valid matches Some(d) ==> b.valid == d)
            &&& (temporal.valid is None ==> (query.valid matches Some(d) ==> b.valid == d))
            &&& (temporal.valid is None && query.valid is None ==> b.valid == now)
            &&& (temporal.system matches Some(d) ==> b.system == d)
            &&& (temporal.system is None ==> (query.system matches Some(d) ==> b.system == d))
            &&& (temporal.system is None && query.system is None ==> b.system == now)
        }),
{
    let upto = clauses.subrange(0, i + 1);
    lemma_bounds_prefix(clauses, query, now, i);
    lemma_bounds_prefix(clauses, query, now, i + 1);
    assert(upto.drop_last() =~= clauses.subrange(0, i));
    assert(upto.last() == clauses[i]);
    let k = readers(clauses.subrange(0, i)) as int;
    assert(clause_bounds(clauses, query, now)[k] == clause_bounds(upto, query, now)[k]);
}

/// A condition with an `EXISTS` reads at the times of the last `MATCH` before
/// it, as far as that one writes them, else at those of the query, else at the
/// present. Where no `MATCH` stands before it, none is written but the query's.
pub proof fn law_each_condition_reads_at_the_last_match<D>(
    clauses: Seq<ClauseShape<D>>,
    query: TemporalClauses<D>,
    now: D,
    i: int,
    j: int,
)
    requires
        0 <= i < clauses.len(),
        clauses[i] == (ClauseShape::<D>::Filter { exists: true }),
        -1 <= j < i,
        j >= 0 ==> clauses[j] is Match,
        forall|k: int| j < k < i ==> !((#[trigger] clauses[k]) is Match),
    ensures
        readers(clauses.subrange(0, i)) < clause_bounds(clauses, query, now).len(),
        ({
            let b = clause_bounds(clauses, query, now)[readers(clauses.subrange(0, i)) as int];
            let none = TemporalClauses::<D> { valid: None, system: None };
            let own = if j < 0 {
                none
            } else {
                match clauses[j] {
                    ClauseShape::Match { temporal, .. } => temporal,
                    _ => none,
                }
            };
            &&& (own.valid matches Some(d) ==> b.valid == d)
            &&& (own.valid is None ==> (query.valid matches Some(d) ==> b.valid == d))
            &&& (own.valid is None && query.valid is None ==> b.valid == now)
            &&& (own.system matches Some(d) ==> b.system == d)
            &&& (own.system is None ==> (query.system matches Some(d) ==> b.system == d))
            &&& (own.system is None && query.system is None ==> b.system == now)
        }),
{
    let before = clauses.subrange(0, i);
    let upto = clauses.subrange(0, i + 1);
    lemma_bounds_prefix(clauses, query, now, i);
    lemma_bounds_prefix(clauses, query, now, i + 1);
    assert(upto.drop_last() =~= before);
    assert(upto.last() == clauses[i]);
    let k = readers(before) as int;
    assert(clause_bounds(clauses, query, now)[k] == clause_bounds(upto, query, now)[k]);
    assert forall|k: int| j < k < before.len() implies !((#[trigger] before[k]) is Match) by {
        assert(before[k] == clauses[k]);
    }
    if j >= 0 {
        assert(before[j] == clauses[j]);
        lemma_active(before, j);
    } else {
        lemma_none_active(before);
    }
}

pub fn bounds_per_clause<D: Copy>(
    clauses: &Vec<ClauseShape<D>>,
    query: &TemporalClauses<D>,
    now: D,
) -> (r: Vec<TemporalBounds<D>>)
    ensures
        r@ == clause_bounds(clauses@, *query, now),
{
    let mut bounds: Vec<TemporalBounds<D>> = Vec::new();
    let mut active: TemporalClauses<D> = TemporalClauses { valid: None, system: None };
    let mut i: usize = 0;
    assert(clauses@.subrange(0, 0) =~= Seq::<ClauseShape<D>>::empty());
    while i < clauses.len()
        invariant
            i <= clauses.len(),
            bounds@ == clause_bounds(clauses@.subrange(0, i as int), *query, now),
            active == active_temporal(clauses@.subrange(0, i as int)),
        decreases clauses.len() - i,
    {
        proof {
            assert(clauses@.subrange(0, i + 1).drop_last() =~= clauses@.subrange(0, i as int));
            assert(clauses@.subrange(0, i + 1).last() == clauses@[i as int]);
        }
        match &clauses[i] {
            ClauseShape::Match { temporal, .. } => {
                active = *temporal;
                bounds.push(match_bounds(query, temporal, now));
            },
            ClauseShape::Filter { exists } => {
                if *exists {
                    bounds.push(match_bounds(query, &active, now));
                }
            },
            ClauseShape::Other => {},
        }
        i += 1;
    }
    assert(clauses@.subrange(0, clauses@.len() as int) =~= clauses@);
    bounds
}

/// Which nodes a scan admits by their labels.
pub enum LabelFilter {
    Single(String),
    All(Vec<String>),
    Any(Vec<String>),
}

/// One label that must be there is a filter of its own.
pub open spec fn is_label_filter(r: LabelFilter, labels: LabelSpec) -> bool {
    match labels {
        LabelSpec::All(list) => if list@.len() == 1 {
            r matches LabelFilter::Single(l) && l@ == list@[0]@
        } else {
            r matches LabelFilter::All(l) && views(l@) == views(list@)
        },
        LabelSpec::Any(list) => r matches LabelFilter::Any(l) && views(l@) == views(list@),
    }
}

pub fn label_filter(labels: &LabelSpec) -> (r: LabelFilter)
    ensures
        is_label_filter(r, *labels),
{
    match labels {
        LabelSpec::All(list) => if list.len() == 1 {
            LabelFilter::Single(list[0].clone())
        } else {
            LabelFilter::All(clone_texts(list))
        },
        LabelSpec::Any(list) => LabelFilter::Any(clone_texts(list)),
    }
}

/// What an element of a pattern is.
pub enum SpecKind {
    Node { labels: LabelSpec, iid_point: Option<Iid> },
    Edge { label: String, direction: Direction },
    /// A hop that is taken several times, at most `max`.
    Expand { label: String, direction: Direction, props: Vec<(String, Expr)>, max: u32 },
}

/// An element of a pattern, with its variable.
pub struct ScanSpec {
    pub var: String,
    pub kind: SpecKind,
}

/// The values of property expressions, in order; the first that fails fails all.
pub open spec fn props_values(
    props: Seq<(String, Expr)>,
    params: Map<Seq<char>, ValueView>,
) -> Result<Seq<(Seq<char>, ValueView)>, ErrorView> {
    try_fold(
        props,
        Seq::<(Seq<char>, ValueView)>::empty(),
        |acc: Seq<(Seq<char>, ValueView)>, p: (String, Expr)|
            match const_spec(p.1, params) {
                Err(e) => Err(e),
                Ok(v) => Ok(acc.push((p.0@, v))),
            },
    )
}

/// What named values hold.
pub open spec fn value_views(values: Seq<(String, Value)>) -> Seq<(Seq<char>, ValueView)> {
    values.map_values(|p: (String, Value)| (p.0@, p.1@))
}

pub fn const_props(props: &Vec<(String, Expr)>, params: &Params) -> (r: Result<
    Vec<(String, Value)>,
    EngineError,
>)
    requires
        params.wf(),
        props_negatable(props@),
    ensures
        match r {
            Ok(values) => props_values(props@, params@) == Ok::<
                Seq<(Seq<char>, ValueView)>,
                ErrorView,
            >(value_views(values@)),
            Err(e) => props_values(props@, params@) == Err::<
                Seq<(Seq<char>, ValueView)>,
                ErrorView,
            >(e@),
        },
{
    let ghost none = Seq::<(Seq<char>, ValueView)>::empty();
    let ghost pv = params@;
    let ghost step = |acc: Seq<(Seq<char>, ValueView)>, p: (String, Expr)|
        match const_spec(p.1, pv) {
            Err(e) => Err(e),
            Ok(v) => Ok(acc.push((p.0@, v))),
        };
    let mut values: Vec<(String, Value)> = Vec::new();
    proof {
        lemma_try_fold_all(props@, none, step);
        assert(value_views(values@) =~= none);
    }
    let mut i: usize = 0;
    while i < props.len()
        invariant
            i <= props.len(),
            params.wf(),
            pv == params@,
            props_negatable(props@),
            none == Seq::<(Seq<char>, ValueView)>::empty(),
            step == (|acc: Seq<(Seq<char>, ValueView)>, p: (String, Expr)|
                match const_spec(p.1, pv) {
                    Err(e) => Err(e),
                    Ok(v) => Ok(acc.push((p.0@, v))),
                }),
            try_fold(props@.subrange(0, i as int), none, step) == Ok::<
                Seq<(Seq<char>, ValueView)>,
                ErrorView,
            >(value_views(values@)),
        decreases props.len() - i,
    {
        proof {
            lemma_try_fold_step(props@, none, step, i as int);
            if try_fold(props@.subrange(0, i + 1), none, step) is Err {
                lemma_try_fold_fails(props@, none, step, i + 1);
            }
        }
        match const_value(&props[i].1, params) {
            Ok(v) => {
                let ghost before = values@;
                let pair = (props[i].0.clone(), v);
                let ghost pair0 = pair;
                values.push(pair);
                assert(value_views(values@) =~= value_views(before).push((pair0.0@, pair0.1@)));
            },
            Err(e) => {
                return Err(e);
            },
        }
        i += 1;
    }
    proof {
        lemma_try_fold_all(props@, none, step);
    }
    Ok(values)
}

/// The side from which an edge is followed.
pub open spec fn side(d: Direction) -> AdjDirection {
    match d {
        Direction::Out => AdjDirection::Out,
        Direction::In => AdjDirection::In,
    }
}

pub fn adj_direction(d: Direction) -> (r: AdjDirection)
    ensures
        r == side(d),
{
    match d {
        Direction::Out => AdjDirection::Out,
        Direction::In => AdjDirection::In,
    }
}

/// What was found by a search from the first node.
#[derive(Clone, Copy, Debug, PartialEq, Eq, Structural)]
pub enum FastKind {
    /// The edges of a path of single hops.
    FixedEdges,
    /// The edges of a hop that is taken several times.
    QuantifiedAdjacency,
}

/// What an element of a pattern is read from.
pub enum ScanChoice {
    /// A scan of the nodes.
    Nodes { labels: LabelFilter, point: Option<Iid> },
    /// A scan of the edges of a label.
    Edges { label: String },
    /// The edges that a search found.
    FoundEdges,
    /// All edges of a label with these properties, followed from one side.
    Adjacency { label: String, direction: AdjDirection, props: Vec<(String, Value)> },
    /// The edges that a search found, by node.
    FoundAdjacency,
}

/// The choice for an element.
pub open spec fn is_choice(
    r: Result<ScanChoice, EngineError>,
    kind: SpecKind,
    params: Map<Seq<char>, ValueView>,
    fast: Option<FastKind>,
) -> bool {
    match kind {
        SpecKind::Node { labels, iid_point } => r matches Ok(
            ScanChoice::Nodes { labels: l, point },
        ) && is_label_filter(l, labels) && point == iid_point,
        SpecKind::Edge { label, .. } => if fast == Some(FastKind::FixedEdges) {
            r matches Ok(ScanChoice::FoundEdges)
        } else {
            r matches Ok(ScanChoice::Edges { label: l }) && l@ == label@
        },
        SpecKind::Expand { label, direction, props, .. } => if fast == Some(
            FastKind::QuantifiedAdjacency,
        ) {
            r matches Ok(ScanChoice::FoundAdjacency)
        } else {
            match props_values(props@, params) {
                Err(e) => r matches Err(err) && err@ == e,
                Ok(values) => r matches Ok(
                    ScanChoice::Adjacency { label: l, direction: d, props: p },
                ) && l@ == label@ && d == side(direction) && value_views(p@) == values,
            }
        },
    }
}

/// The property expressions of an element can be evaluated without overflow.
pub open spec fn kind_negatable(kind: SpecKind) -> bool {
    kind matches SpecKind::Expand { props, .. } ==> props_negatable(props@)
}

/// What an element of a pattern is read from.
pub fn scan_input_for(kind: &SpecKind, params: &Params, fast: Option<FastKind>) -> (r: Result<
    ScanChoice,
    EngineError,
>)
    requires
        params.wf(),
        kind_negatable(*kind),
    ensures
        is_choice(r, *kind, params@, fast),
{
    match kind {
        SpecKind::Node { labels, iid_point } => Ok(
            ScanChoice::Nodes { labels: label_filter(labels), point: *iid_point },
        ),
        SpecKind::Edge { label, .. } => match fast {
            Some(FastKind::FixedEdges) => Ok(ScanChoice::FoundEdges),
            _ => Ok(ScanChoice::Edges { label: label.clone() }),
        },
        SpecKind::Expand { label, direction, props, .. } => match fast {
            Some(FastKind::QuantifiedAdjacency) => Ok(ScanChoice::FoundAdjacency),
            _ => match const_props(props, params) {
                Err(e) => Err(e),
                Ok(values) => Ok(
                    ScanChoice::Adjacency {
                        label: label.clone(),
                        direction: adj_direction(*direction),
                        props: values,
                    },
                ),
            },
        },
    }
}

/// The elements of a clause: its own, and those of each `EXISTS` in it.
pub struct ClauseSpecs {
    pub specs: Vec<ScanSpec>,
    pub exists: Vec<Vec<ScanSpec>>,
}

/// One element to be read: of the clause itself or of one `EXISTS`, by its
/// place, and whether what a search found may stand for it.
#[derive(Clone, Copy, Debug, PartialEq, Eq, Structural)]
pub struct SpecRef {
    pub exists: Option<usize>,
    pub spec: usize,
    pub fast: Option<FastKind>,
}

/// The elements of one list, in order.
pub open spec fn refs_of(exists: Option<usize>, n: int, fast: Option<FastKind>) -> Seq<SpecRef> {
    Seq::new(n as nat, |i: int| SpecRef { exists, spec: i as usize, fast })
}

/// The elements of the first `n` `EXISTS` parts, in order.
pub open spec fn exists_refs(exists: Seq<Vec<ScanSpec>>, n: int) -> Seq<SpecRef>
    decreases n,
{
    if n <= 0 {
        Seq::empty()
    } else {
        exists_refs(exists, n - 1) + refs_of(
            Some((n - 1) as usize),
            exists[n - 1]@.len() as int,
            None,
        )
    }
}

/// The elements of a clause in the order in which they are read.
pub open spec fn clause_refs(c: ClauseSpecs, fast: Option<FastKind>) -> Seq<SpecRef> {
    refs_of(None, c.specs@.len() as int, fast) + exists_refs(c.exists@, c.exists@.len() as int)
}

fn push_refs(out: &mut Vec<SpecRef>, exists: Option<usize>, n: usize, fast: Option<FastKind>)
    ensures
        final(out)@ == old(out)@ + refs_of(exists, n as int, fast),
{
    let ghost before = out@;
    let mut i: usize = 0;
    assert(before + refs_of(exists, 0, fast) =~= before);
    while i < n
        invariant
            i <= n,
            out@ == before + refs_of(exists, i as int, fast),
        decreases n - i,
    {
        out.push(SpecRef { exists, spec: i, fast });
        assert(out@ =~= before + refs_of(exists, i + 1, fast));
        i += 1;
    }
}

/// The elements of a clause in the order in which they are read. What a search
/// found stands for elements of the clause itself only.
pub fn scan_inputs_for_clause(c: &ClauseSpecs, fast: Option<FastKind>) -> (r: Vec<SpecRef>)
    ensures
        r@ == clause_refs(*c, fast),
{
    let mut out: Vec<SpecRef> = Vec::new();
    push_refs(&mut out, None, c.specs.len(), fast);
    let ghost own = refs_of(None, c.specs@.len() as int, fast);
    assert(out@ =~= own);
    let mut i: usize = 0;
    assert(own + exists_refs(c.exists@, 0) =~= own);
    while i < c.exists.len()
        invariant
            i <= c.exists.len(),
            out@ == own + exists_refs(c.exists@, i as int),
        decreases c.exists.len() - i,
    {
        push_refs(&mut out, Some(i), c.exists[i].len(), None);
        assert(out@ =~= own + exists_refs(c.exists@, i + 1));
        i += 1;
    }
    out
}

/// Why the elements of a query cannot be read, if they cannot.
pub open spec fn inputs_fault(specs: nat, bounds: nat, fast: Option<nat>) -> Option<Seq<char>> {
    if specs != bounds {
        Some("internal: clause specs/bounds length mismatch"@)
    } else if fast is Some && fast->0 != specs {
        Some("internal: clause specs/fast paths length mismatch"@)
    } else {
        None
    }
}

/// The number of the searches, where there are any.
pub open spec fn fast_len(fast_paths: Option<Seq<Option<FastKind>>>) -> Option<nat> {
    match fast_paths {
        Some(paths) => Some(paths.len()),
        None => None,
    }
}

/// The elements of all clauses of a query, clause by clause.
pub fn scan_inputs_for(
    clauses: &Vec<ClauseSpecs>,
    bounds: usize,
    fast_paths: Option<&Vec<Option<FastKind>>>,
) -> (r: Result<Vec<Vec<SpecRef>>, EngineError>)
    ensures
        ({
            let paths = match fast_paths {
                Some(p) => Some(p@),
                None => None,
            };
            let fault = inputs_fault(clauses@.len(), bounds as nat, fast_len(paths));
            match r {
                Err(e) => fault matches Some(text) && e@ == ErrorView::Unsupported(text),
                Ok(refs) => {
                    &&& fault is None
                    &&& refs@.len() == clauses@.len()
                    &&& forall|i: int|
                        0 <= i < refs@.len() ==> (#[trigger] refs@[i])@ == clause_refs(
                            clauses@[i],
                            match paths {
                                Some(p) => p[i],
                                None => None,
                            },
                        )
                },
            }
        }),
{
    if clauses.len() != bounds {
        return Err(
            EngineError::Unsupported("internal: clause specs/bounds length mismatch".to_owned()),
        );
    }
    match fast_paths {
        Some(paths) => {
            if paths.len() != clauses.len() {
                return Err(
                    EngineError::Unsupported(
                        "internal: clause specs/fast paths length mismatch".to_owned(),
                    ),
                );
            }
        },
        None => {},
    }
    let mut refs: Vec<Vec<SpecRef>> = Vec::new();
    let mut i: usize = 0;
    while i < clauses.len()
        invariant
            i <= clauses.len(),
            fast_paths matches Some(p) ==> p@.len() == clauses@.len(),
            refs@.len() == i,
            forall|k: int|
                0 <= k < i ==> (#[trigger] refs@[k])@ == clause_refs(
                    clauses@[k],
                    match fast_paths {
                        Some(p) => p@[k],
                        None => None,
                    },
                ),
        decreases clauses.len() - i,
    {
        let fast = match fast_paths {
            Some(paths) => paths[i],
            None => None,
        };
        refs.push(scan_inputs_for_clause(&clauses[i], fast));
        i += 1;
    }
    Ok(refs)
}

/// How a query is answered.
#[derive(Clone, Copy, Debug, PartialEq, Eq, Structural)]
pub enum QueryMode {
    /// The parts of a union, each planned before any is evaluated.
    Union,
    /// A single path, for which a search may take the place of a scan.
    TrySearch,
    Plain,
}

/// A search may take the place of a scan only where the query is one `MATCH` of
/// one path that is not optional.
pub open spec fn mode_of<D>(unions: nat, clauses: Seq<ClauseShape<D>>, specs: nat) -> QueryMode {
    if unions > 0 {
        QueryMode::Union
    } else if clauses.len() == 1 && specs == 1 && (clauses[0] matches ClauseShape::Match {
        optional,
        paths,
        ..
    } && !optional && paths == 1) {
        QueryMode::TrySearch
    } else {
        QueryMode::Plain
    }
}

pub fn query_mode<D>(unions: usize, clauses: &Vec<ClauseShape<D>>, specs: usize) -> (r: QueryMode)
    ensures
        r == mode_of(unions as nat, clauses@, specs as nat),
{
    if unions > 0 {
        return QueryMode::Union;
    }
    if clauses.len() == 1 && specs == 1 {
        match &clauses[0] {
            ClauseShape::Match { optional, paths, .. } => {
                if !*optional && *paths == 1 {
                    return QueryMode::TrySearch;
                }
            },
            _ => {},
        }
    }
    QueryMode::Plain
}

/// A query of one path, as far as the choice of a search reads it: the path, the
/// parts of its condition, each with its variable where it compares a property
/// with a value, and what it returns.
pub struct PathQuery {
    pub paths: Vec<PathPattern>,
    pub conjuncts: Option<Vec<Option<String>>>,
    pub items: Vec<Expr>,
}

/// A search from the first node of a path.
pub enum FastPath {
    /// A hop of these properties, taken at most so many times.
    Quantified {
        anchor: Iid,
        label: String,
        props: Vec<(String, Value)>,
        direction: AdjDirection,
        levels: u32,
    },
    /// So many single hops, all of one label and one direction.
    Fixed { anchor: Iid, label: String, direction: AdjDirection, hops: usize },
}

/// The first node, where it is known by its identity.
pub open spec fn anchor_spec(specs: Seq<ScanSpec>) -> Option<Iid> {
    if specs.len() == 0 {
        None
    } else {
        match specs[0].kind {
            SpecKind::Node { iid_point, .. } => iid_point,
            _ => None,
        }
    }
}

pub fn anchor_of(specs: &Vec<ScanSpec>) -> (r: Option<Iid>)
    ensures
        r == anchor_spec(specs@),
{
    if specs.len() == 0 {
        return None;
    }
    match &specs[0].kind {
        SpecKind::Node { iid_point, .. } => *iid_point,
        _ => None,
    }
}

/// Every second element is an edge of one label and one direction.
pub open spec fn same_hops(
    specs: Seq<ScanSpec>,
    label: Seq<char>,
    direction: Direction,
) -> bool {
    forall|i: int|
        0 <= i < specs.len() && i % 2 == 1 ==> ((#[trigger] specs[i]).kind matches SpecKind::Edge {
            label: l,
            direction: d,
        } && l@ == label && d == direction)
}

/// The variable of some edge of the path.
pub open spec fn is_edge_var(specs: Seq<ScanSpec>, var: Seq<char>) -> bool {
    exists|i: int| 0 <= i < specs.len() && i % 2 == 1 && (#[trigger] specs[i]).var@ == var
}

/// No hop of the path asks for properties.
pub open spec fn bare_hops(path: PathPattern) -> bool {
    forall|i: int| 0 <= i < path.hops@.len() ==> (#[trigger] path.hops@[i]).edge.props@.len() == 0
}

/// The condition compares properties of nodes with values, and nothing else.
pub open spec fn conditions_on_nodes(
    specs: Seq<ScanSpec>,
    conjuncts: Option<Vec<Option<String>>>,
) -> bool {
    conjuncts matches Some(list) ==> forall|i: int|
        0 <= i < list@.len() ==> ((#[trigger] list@[i]) matches Some(var) && !is_edge_var(
            specs,
            var@,
        ))
}

/// A variable or a property of a node.
pub open spec fn reads_node(specs: Seq<ScanSpec>, e: Expr) -> bool {
    match e {
        Expr::Prop { var, .. } => !is_edge_var(specs, var@),
        Expr::Var(var) => !is_edge_var(specs, var@),
        _ => false,
    }
}

/// The query returns nodes, their properties, or functions of these.
pub open spec fn returns_nodes(specs: Seq<ScanSpec>, items: Seq<Expr>) -> bool {
    forall|i: int|
        0 <= i < items.len() ==> match #[trigger] items[i] {
            Expr::FnCall { args } => forall|k: int|
                0 <= k < args@.len() ==> reads_node(specs, #[trigger] args@[k]),
            e => reads_node(specs, e),
        }
}

/// The edges of the path are read for nothing but where they lead.
pub open spec fn edges_unread(specs: Seq<ScanSpec>, q: PathQuery) -> bool {
    &&& bare_hops(q.paths@[0])
    &&& conditions_on_nodes(specs, q.conjuncts)
    &&& returns_nodes(specs, q.items@)
}

/// The search for a path, if there is one. Wherever a search might find less
/// than a scan would, there is none.
pub open spec fn is_fast_path(
    r: Result<Option<FastPath>, EngineError>,
    specs: Seq<ScanSpec>,
    query: Result<PathQuery, EngineError>,
    params: Map<Seq<char>, ValueView>,
) -> bool {
    match anchor_spec(specs) {
        None => r matches Ok(None),
        Some(anchor) => match query {
            Err(e) => r == Err::<Option<FastPath>, EngineError>(e),
            Ok(q) => if q.paths@.len() == 0 || q.paths@[0].hops@.len() == 0 {
                r matches Ok(None)
            } else if specs.len() == 3 && specs[1].kind is Expand {
                let kind = specs[1].kind;
                match props_values(kind->Expand_props@, params) {
                    Err(e) => r matches Err(err) && err@ == e,
                    Ok(values) => r matches Ok(
                        Some(FastPath::Quantified { anchor: a, label, props, direction, levels }),
                    ) && a == anchor && label@ == kind->Expand_label@ && value_views(props@)
                        == values && direction == side(kind->Expand_direction) && levels
                        == kind->Expand_max,
                }
            } else if (specs[1].kind matches SpecKind::Edge { label, direction } && same_hops(
                specs,
                label@,
                direction,
            )) && edges_unread(specs, q) {
                r matches Ok(Some(FastPath::Fixed { anchor: a, label, direction, hops })) && a
                    == anchor && label@ == specs[1].kind->Edge_label@ && direction == side(
                    specs[1].kind->Edge_direction,
                ) && hops == specs.len() / 2
            } else {
                r matches Ok(None)
            },
        },
    }
}

/// Every second element is an edge like the first one.
fn homogeneous(specs: &Vec<ScanSpec>, label: &String, direction: Direction) -> (r: bool)
    ensures
        r == same_hops(specs@, label@, direction),
{
    let total: usize = specs.len();
    let mut i: usize = 0;
    while i < total
        invariant
            i <= total,
            total == specs@.len(),
            forall|k: int|
                0 <= k < i && k % 2 == 1 ==> ((#[trigger] specs@[k]).kind matches SpecKind::Edge {
                    label: l,
                    direction: d,
                } && l@ == label@ && d == direction),
        decreases total - i,
    {
        if i % 2 == 1 {
            let same = match &specs[i].kind {
                SpecKind::Edge { label: l, direction: d } => same_text(l, label) && *d == direction,
                _ => false,
            };
            if !same {
                assert(!(specs@[i as int].kind matches SpecKind::Edge { label: l, direction: d }
                    && l@ == label@ && d == direction));
                return false;
            }
        }
        i += 1;
    }
    true
}

fn references_edge(specs: &Vec<ScanSpec>, var: &String) -> (r: bool)
    ensures
        r == is_edge_var(specs@, var@),
{
    let total: usize = specs.len();
    let mut i: usize = 0;
    while i < total
        invariant
            i <= total,
            total == specs@.len(),
            forall|k: int| 0 <= k < i && k % 2 == 1 ==> (#[trigger] specs@[k]).var@ != var@,
        decreases total - i,
    {
        if i % 2 == 1 && same_text(&specs[i].var, var) {
            assert(specs@[i as int].var@ == var@);
            return true;
        }
        i += 1;
    }
    false
}

fn has_bare_hops(path: &PathPattern) -> (r: bool)
    ensures
        r == bare_hops(*path),
{
    let mut i: usize = 0;
    while i < path.hops.len()
        invariant
            i <= path.hops.len(),
            forall|k: int|
                0 <= k < i ==> (#[trigger] path.hops@[k]).edge.props@.len() == 0,
        decreases path.hops.len() - i,
    {
        if path.hops[i].edge.props.len() != 0 {
            assert(path.hops@[i as int].edge.props@.len() != 0);
            return false;
        }
        i += 1;
    }
    true
}

fn tests_nodes_only(specs: &Vec<ScanSpec>, conjuncts: &Option<Vec<Option<String>>>) -> (r: bool)
    ensures
        r == conditions_on_nodes(specs@, *conjuncts),
{
    match conjuncts {
        None => true,
        Some(list) => {
            let mut i: usize = 0;
            while i < list.len()
                invariant
                    i <= list.len(),
                    *conjuncts == Some(*list),
                    forall|k: int|
                        0 <= k < i ==> ((#[trigger] list@[k]) matches Some(var) && !is_edge_var(
                            specs@,
                            var@,
                        )),
                decreases list.len() - i,
            {
                let fine = match &list[i] {
                    Some(var) => !references_edge(specs, var),
                    None => false,
                };
                if !fine {
                    let ghost bad = list@[i as int];
                    assert(!(bad matches Some(var) && !is_edge_var(specs@, var@)));
                    assert(conjuncts->0@[i as int] == bad);
                    return false;
                }
                i += 1;
            }
            true
        },
    }
}

fn node_only(specs: &Vec<ScanSpec>, e: &Expr) -> (r: bool)
    ensures
        r == reads_node(specs@, *e),
{
    match e {
        Expr::Prop { var, .. } => !references_edge(specs, var),
        Expr::Var(var) => !references_edge(specs, var),
        _ => false,
    }
}

fn args_node_only(specs: &Vec<ScanSpec>, args: &Vec<Expr>) -> (r: bool)
    ensures
        r == (forall|k: int| 0 <= k < args@.len() ==> reads_node(specs@, #[trigger] args@[k])),
{
    let mut k: usize = 0;
    while k < args.len()
        invariant
            k <= args.len(),
            forall|j: int| 0 <= j < k ==> reads_node(specs@, #[trigger] args@[j]),
        decreases args.len() - k,
    {
        if !node_only(specs, &args[k]) {
            assert(!reads_node(specs@, args@[k as int]));
            return false;
        }
        k += 1;
    }
    true
}

/// What one item of a query returns does not read an edge.
pub open spec fn item_reads_nodes(specs: Seq<ScanSpec>, e: Expr) -> bool {
    match e {
        Expr::FnCall { args } => forall|k: int|
            0 <= k < args@.len() ==> reads_node(specs, #[trigger] args@[k]),
        e => reads_node(specs, e),
    }
}

fn gives_nodes_only(specs: &Vec<ScanSpec>, items: &Vec<Expr>) -> (r: bool)
    ensures
        r == returns_nodes(specs@, items@),
{
    let mut i: usize = 0;
    while i < items.len()
        invariant
            i <= items.len(),
            forall|k: int| 0 <= k < i ==> item_reads_nodes(specs@, #[trigger] items@[k]),
        decreases items.len() - i,
    {
        let fine = match &items[i] {
            Expr::FnCall { args } => args_node_only(specs, args),
            e => node_only(specs, e),
        };
        assert(fine == item_reads_nodes(specs@, items@[i as int]));
        if !fine {
            assert(!returns_nodes(specs@, items@)) by {
                let e = items@[i as int];
                assert(!item_reads_nodes(specs@, e));
            }
            return false;
        }
        i += 1;
    }
    assert(returns_nodes(specs@, items@)) by {
        assert forall|k: int| 0 <= k < items@.len() implies match #[trigger] items@[k] {
            Expr::FnCall { args } => forall|j: int|
                0 <= j < args@.len() ==> reads_node(specs@, #[trigger] args@[j]),
            e => reads_node(specs@, e),
        } by {
            assert(item_reads_nodes(specs@, items@[k]));
        }
    }
    true
}

/// Whether a search from the first node takes the place of a scan, and which. A
/// hop that is taken several times reads its edges for nothing but where they
/// lead. Single hops must be all alike, and the query must read no edge: what it
/// would read might not be there among the fewer edges that a search finds.
/// `query` is the query as one path, where it is one.
pub fn plan_fast_path(
    specs: &Vec<ScanSpec>,
    query: Result<PathQuery, EngineError>,
    params: &Params,
) -> (r: Result<Option<FastPath>, EngineError>)
    requires
        params.wf(),
        forall|i: int| 0 <= i < specs@.len() ==> kind_negatable((#[trigger] specs@[i]).kind),
        query matches Ok(q) && q.paths@.len() > 0 && q.paths@[0].hops@.len() > 0 && anchor_spec(
            specs@,
        ) is Some ==> specs@.len() >= 2,
    ensures
        is_fast_path(r, specs@, query, params@),
{
    let anchor = match anchor_of(specs) {
        Some(anchor) => anchor,
        None => {
            return Ok(None);
        },
    };
    let query = match query {
        Ok(query) => query,
        Err(e) => {
            return Err(e);
        },
    };
    if query.paths.len() == 0 || query.paths[0].hops.len() == 0 {
        return Ok(None);
    }
    if specs.len() == 3 {
        match &specs[1].kind {
            SpecKind::Expand { label, direction, props, max } => {
                assert(kind_negatable(specs@[1].kind));
                return match const_props(props, params) {
                    Err(e) => Err(e),
                    Ok(values) => Ok(
                        Some(
                            FastPath::Quantified {
                                anchor,
                                label: label.clone(),
                                props: values,
                                direction: adj_direction(*direction),
                                levels: *max,
                            },
                        ),
                    ),
                };
            },
            _ => {},
        }
    }
    match &specs[1].kind {
        SpecKind::Edge { label, direction } => {
            if !homogeneous(specs, label, *direction) {
                return Ok(None);
            }
            if !has_bare_hops(&query.paths[0]) {
                return Ok(None);
            }
            if !tests_nodes_only(specs, &query.conjuncts) {
                return Ok(None);
            }
            if !gives_nodes_only(specs, &query.items) {
                return Ok(None);
            }
            Ok(
                Some(
                    FastPath::Fixed {
                        anchor,
                        label: label.clone(),
                        direction: adj_direction(*direction),
                        hops: specs.len() / 2,
                    },
                ),
            )
        },
        _ => Ok(None),
    }
}

/// What is to be done next for a query. Body 0 is the first part, the others are
/// the parts that it is united with.
#[derive(Clone, Copy, Debug, PartialEq, Eq, Structural)]
pub enum QueryAction {
    /// Plan a body and read its inputs.
    Plan(usize),
    /// Evaluate a body that was planned.
    Evaluate(usize),
    /// Unite what the bodies gave.
    Unite,
    /// Evaluate the only body, row by row as they are asked for.
    Stream,
}

/// The course of a query with so many united parts.
pub struct QueryRun {
    pub unions: usize,
    pub current: QueryAction,
}

/// What comes after an action that succeeded. All bodies are planned before any
/// is evaluated.
pub open spec fn next_action(unions: usize, current: QueryAction) -> Option<QueryAction> {
    match current {
        QueryAction::Plan(i) => if i < unions {
            Some(QueryAction::Plan((i + 1) as usize))
        } else if unions == 0 {
            Some(QueryAction::Stream)
        } else {
            Some(QueryAction::Evaluate(0))
        },
        QueryAction::Evaluate(i) => if i < unions {
            Some(QueryAction::Evaluate((i + 1) as usize))
        } else {
            Some(QueryAction::Unite)
        },
        QueryAction::Unite => None,
        QueryAction::Stream => None,
    }
}

impl QueryRun {
    pub fn start(unions: usize) -> (r: QueryRun)
        ensures
            r.unions == unions,
            r.current == QueryAction::Plan(0),
    {
        QueryRun { unions, current: QueryAction::Plan(0) }
    }

    /// Takes in how the last action ended; a failure ends the query.
    pub fn step(&mut self, outcome: Result<(), EngineError>) -> (r: Result<
        Option<QueryAction>,
        EngineError,
    >)
        ensures
            final(self).unions == old(self).unions,
            match outcome {
                Err(e) => r == Err::<Option<QueryAction>, EngineError>(e) && *final(self) == *old(
                    self,
                ),
                Ok(()) => {
                    &&& r == Ok::<Option<QueryAction>, EngineError>(
                        next_action(old(self).unions, old(self).current),
                    )
                    &&& final(self).current == (match next_action(
                        old(self).unions,
                        old(self).current,
                    ) {
                        Some(a) => a,
                        None => old(self).current,
                    })
                },
            },
    {
        match outcome {
            Err(e) => {
                return Err(e);
            },
            Ok(()) => {},
        }
        let unions: usize = self.unions;
        let next = match self.current {
            QueryAction::Plan(i) => if i < unions {
                Some(QueryAction::Plan(i + 1))
            } else if unions == 0 {
                Some(QueryAction::Stream)
            } else {
                Some(QueryAction::Evaluate(0))
            },
            QueryAction::Evaluate(i) => if i < unions {
                Some(QueryAction::Evaluate(i + 1))
            } else {
                Some(QueryAction::Unite)
            },
            QueryAction::Unite => None,
            QueryAction::Stream => None,
        };
        match next {
            Some(a) => {
                self.current = a;
            },
            None => {},
        }
        Ok(next)
    }
}

/// Nothing is planned any more once something was evaluated.
pub proof fn law_planning_comes_first(unions: usize, current: QueryAction)
    requires
        !(current is Plan),
    ensures
        next_action(unions, current) matches Some(a) ==> !(a is Plan),
{
}

/// A query reads the graph that it is sent for or that it names, the default one
/// where neither is said; where both are said they must agree.
pub proof fn law_one_graph_is_chosen(field: Option<Seq<char>>, use_graph: Option<Seq<char>>)
    ensures
        field is Some && use_graph is Some && field != use_graph ==> chosen_graph(field, use_graph)
            is Err,
        !(field is Some && use_graph is Some && field != use_graph) ==> (chosen_graph(
            field,
            use_graph,
        ) matches Ok(g) && (field matches Some(f) ==> g == f) && (use_graph matches Some(u) ==> g
            == u) && (field is None && use_graph is None ==> g == "default"@)),
{
}

/// A query is taken exactly where its graph can be told, is not reserved and is
/// there, and where the program is one query. A mutation is taken exactly where
/// its graph can be told, is not reserved and, where the sender names it, is
/// there, and where the program holds something and no query.
pub proof fn law_requests_are_taken_as_they_should(
    s: StateView,
    field: Option<Seq<char>>,
    use_graph: Option<Seq<char>>,
    stmts: Seq<Statement>,
)
    ensures
        query_fault(s, field, use_graph, stmts) is None <==> (chosen_graph(field, use_graph)
            matches Ok(g) && !reserved_name(g) && s.graphs.dom().contains(g) && stmts.len() == 1
            && stmts[0] is Query),
        mutation_fault(s, field, use_graph, stmts) is None <==> (chosen_graph(field, use_graph)
            matches Ok(g) && !reserved_name(g) && (field is Some ==> s.graphs.dom().contains(g))
            && stmts.len() > 0 && forall|i: int|
            0 <= i < stmts.len() ==> !((#[trigger] stmts[i]) is Query)),
{
}

/// Every element of every pattern of a clause is read, once and in order, and
/// every element of each `EXISTS` too.
pub proof fn law_every_element_is_read(c: ClauseSpecs, fast: Option<FastKind>, x: int, i: int)
    requires
        c.specs@.len() <= usize::MAX,
        c.exists@.len() <= usize::MAX,
        forall|k: int| 0 <= k < c.exists@.len() ==> (#[trigger] c.exists@[k])@.len() <= usize::MAX,
    ensures
        0 <= i < c.specs@.len() ==> i < clause_refs(c, fast).len() && clause_refs(c, fast)[i]
            == (SpecRef { exists: None, spec: i as usize, fast }),
        0 <= x < c.exists@.len() && 0 <= i < c.exists@[x]@.len() ==> clause_refs(c, fast).contains(
            SpecRef { exists: Some(x as usize), spec: i as usize, fast: None },
        ),
{
    let a = refs_of(None, c.specs@.len() as int, fast);
    let b = exists_refs(c.exists@, c.exists@.len() as int);
    if 0 <= x < c.exists@.len() && 0 <= i < c.exists@[x]@.len() {
        let r = SpecRef { exists: Some(x as usize), spec: i as usize, fast: None };
        lemma_exists_refs(c.exists@, c.exists@.len() as int, x, i);
        assert((a + b)[a.len() + b.index_of(r)] == r);
    }
}

proof fn lemma_exists_refs(exists: Seq<Vec<ScanSpec>>, n: int, x: int, i: int)
    requires
        0 <= x < n <= exists.len(),
        0 <= i < exists[x]@.len(),
    ensures
        exists_refs(exists, n).contains(
            SpecRef { exists: Some(x as usize), spec: i as usize, fast: None },
        ),
    decreases n,
{
    let r = SpecRef { exists: Some(x as usize), spec: i as usize, fast: None };
    let a = exists_refs(exists, n - 1);
    let b = refs_of(Some((n - 1) as usize), exists[n - 1]@.len() as int, None);
    if x == n - 1 {
        assert(b[i] == r);
        assert((a + b)[a.len() + i] == r);
    } else {
        lemma_exists_refs(exists, n - 1, x, i);
        assert((a + b)[a.index_of(r)] == r);
    }
}

/// The edges that a hop may take are followed the way it points: from their
/// source where it points on, from their destination where it points back. A
/// scan of edges keeps to the label, one of nodes to the labels and the point.
pub proof fn law_scans_keep_to_the_pattern(
    r: Result<ScanChoice, EngineError>,
    kind: SpecKind,
    params: Map<Seq<char>, ValueView>,
    fast: Option<FastKind>,
)
    requires
        is_choice(r, kind, params, fast),
    ensures
        r matches Ok(ScanChoice::Adjacency { label, direction, .. }) ==> (kind matches
            SpecKind::Expand { label: l, direction: d, .. } && label@ == l@ && (d is Out
            <==> direction is Out)),
        r matches Ok(ScanChoice::Edges { label }) ==> (kind matches SpecKind::Edge { label: l, .. }
            && label@ == l@),
        r matches Ok(ScanChoice::Nodes { labels, point }) ==> (kind matches SpecKind::Node {
            labels: l,
            iid_point,
        } && point == iid_point && (l matches LabelSpec::Any(list) ==> (labels matches
            LabelFilter::Any(m) && views(m@) == views(list@))) && (l matches LabelSpec::All(list)
            ==> ((labels matches LabelFilter::All(m) && views(m@) == views(list@)) || (labels
            matches LabelFilter::Single(m) && list@.len() == 1 && m@ == list@[0]@)))),
        r matches Ok(ScanChoice::FoundEdges) ==> fast == Some(FastKind::FixedEdges),
        r matches Ok(ScanChoice::FoundAdjacency) ==> fast == Some(FastKind::QuantifiedAdjacency),
{
}

/// A path is searched hop by hop only from a first node that is known, over hops
/// that are all of one label and one direction and that write no property, and
/// where neither a condition nor a result reads an edge.
pub proof fn law_searches_read_no_edge(
    r: Result<Option<FastPath>, EngineError>,
    specs: Seq<ScanSpec>,
    q: PathQuery,
    params: Map<Seq<char>, ValueView>,
    i: int,
)
    requires
        is_fast_path(r, specs, Ok::<PathQuery, EngineError>(q), params),
        r matches Ok(Some(FastPath::Fixed { .. })),
    ensures
        ({
            let p = r->Ok_0->0;
            &&& (specs.len() > 0 && (specs[0].kind matches SpecKind::Node { iid_point, .. }
                && iid_point == Some(p->Fixed_anchor)))
            &&& p->hops == specs.len() / 2
            &&& (0 <= i < specs.len() && i % 2 == 1 ==> (specs[i].kind matches SpecKind::Edge {
                label,
                direction,
            } && label@ == p->Fixed_label@ && (direction is Out <==> p->Fixed_direction is Out)))
            &&& (0 <= i < q.paths@[0].hops@.len() ==> q.paths@[0].hops@[i].edge.props@.len() == 0)
            &&& (q.conjuncts matches Some(list) ==> 0 <= i < list@.len() ==> (list@[i] matches Some(
                var,
            ) && forall|k: int|
                0 <= k < specs.len() && k % 2 == 1 ==> (#[trigger] specs[k]).var@ != var@))
            &&& (0 <= i < q.items@.len() ==> (q.items@[i] matches Expr::Prop { var, .. } ==> forall|
                k: int,
            |
                0 <= k < specs.len() && k % 2 == 1 ==> (#[trigger] specs[k]).var@ != var@))
            &&& (0 <= i < q.items@.len() ==> (q.items@[i] matches Expr::Var(var) ==> forall|k: int|
                0 <= k < specs.len() && k % 2 == 1 ==> (#[trigger] specs[k]).var@ != var@))
        }),
{
    let p = r->Ok_0->0;
    if 0 <= i < specs.len() && i % 2 == 1 {
        assert(specs[i].kind is Edge);
    }
    if 0 <= i < q.paths@[0].hops@.len() {
        assert(q.paths@[0].hops@[i].edge.props@.len() == 0);
    }
    if let Some(list) = q.conjuncts {
        if 0 <= i < list@.len() {
            assert(list@[i] is Some);
        }
    }
    if 0 <= i < q.items@.len() {
        let e = q.items@[i];
        assert(item_reads_nodes(specs, e)) by {
            assert(returns_nodes(specs, q.items@));
        }
    }
}

} // verus!
