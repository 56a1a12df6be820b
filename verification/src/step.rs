//! One statement of a transaction.

use crate::assign::{resolve_set, set_rows_wf, set_spec, SetRow};
use crate::ast::Statement;
use crate::bindings::{Kinds, Row};
use crate::ddl::{
    graph_stmt_spec, resolve_graph_stmt, resolve_security_stmt, security_stmt_spec, PolicyIds,
};
use crate::delete::{delete_spec, resolve_delete, rows_wf};
use crate::effects::{Effects, EffectsView};
use crate::error::{EngineError, ErrorView};
use crate::insert::{
    derived_iids, drafts_created, first_refused, resolve_insert, InsertPlan, ValidRange,
};
use crate::program::{enforce_spec, enforce_write_effects, Transaction};
use crate::security::GraphGrants;
use crate::state::{GraphsState, StateView};
use crate::text::views;
use crate::types::{Iid, Instant};
use crate::update::{remove_spec, resolve_remove};
use crate::visible::{IncidentEdges, Visible};
use vstd::prelude::*;

verus! {

/// What a statement was given to work on: what its patterns matched, and the
/// identifiers it asked for.
pub enum StatementInput {
    Insert {
        plan: InsertPlan,
        derived: Vec<Result<Iid, String>>,
        valid_from: Instant,
        valid_to: Instant,
    },
    Mutate { rows: Vec<Row>, kinds: Kinds, visible: Visible, incident: IncidentEdges },
    Assign { set_rows: Vec<SetRow>, vars: Vec<String>, kinds: Kinds, visible: Visible },
    Remove { rows: Vec<Row>, kinds: Kinds, visible: Visible },
    Graph { iid: Result<Iid, String> },
    Security { ids: PolicyIds, visible: Visible, incident: IncidentEdges },
    Query,
}

/// The input is of the statement's kind and well formed.
pub open spec fn input_fits(stmt: Statement, input: StatementInput) -> bool {
    match (stmt, input) {
        (Statement::Insert(_), StatementInput::Insert { plan, derived, .. }) => plan.wf()
            && derived@.len() == plan.ids@.len(),
        (
            Statement::Mutate(_),
            StatementInput::Mutate { rows, kinds, visible, incident },
        ) => rows_wf(rows@) && kinds.wf() && visible.wf() && incident.wf(),
        (Statement::Assign(s), StatementInput::Assign { set_rows, kinds, visible, .. }) => set_rows_wf(
            set_rows@,
            s.items@.len() as int,
        ) && kinds.wf() && visible.wf(),
        (Statement::Remove(_), StatementInput::Remove { rows, kinds, visible }) => rows_wf(rows@)
            && kinds.wf() && visible.wf(),
        (Statement::Graph(_), StatementInput::Graph { .. }) => true,
        (Statement::Security(_), StatementInput::Security { ids, visible, incident }) => ids.wf()
            && visible.wf() && incident.wf(),
        (Statement::Query, StatementInput::Query) => true,
        _ => false,
    }
}

/// The effects of an insertion whose plan is made.
pub open spec fn planned_insert(
    plan: InsertPlan,
    derived: Seq<Result<Iid, String>>,
    range: ValidRange,
) -> Result<EffectsView, ErrorView> {
    match first_refused(derived, 0) {
        Some(text) => Err(ErrorView::Type(text)),
        None => match plan.outcome {
            Err(e) => Err(e@),
            Ok(drafts) => Ok(drafts_created(views(drafts@), derived_iids(derived), range)),
        },
    }
}

/// The effects of a statement. A query is no mutation.
pub open spec fn statement_spec(
    stmt: Statement,
    input: StatementInput,
    state: StateView,
    system: Instant,
) -> Result<EffectsView, ErrorView> {
    match (stmt, input) {
        (
            Statement::Insert(_),
            StatementInput::Insert { plan, derived, valid_from, valid_to },
        ) => planned_insert(plan, derived@, ValidRange { system, valid_from, valid_to }),
        (
            Statement::Mutate(m),
            StatementInput::Mutate { rows, kinds, visible, incident },
        ) => delete_spec(m, views(rows@), kinds@, visible, incident, system),
        (Statement::Assign(s), StatementInput::Assign { set_rows, vars, kinds, visible }) => set_spec(
            s.items@,
            views(set_rows@),
            views(vars@),
            kinds@,
            s.match_part@,
            visible,
            system,
        ),
        (Statement::Remove(s), StatementInput::Remove { rows, kinds, visible }) => remove_spec(
            s.items@,
            views(rows@),
            kinds@,
            s.match_part@,
            visible,
            system,
        ),
        (Statement::Graph(g), StatementInput::Graph { iid }) => graph_stmt_spec(
            state,
            g,
            iid,
            system,
        ),
        (Statement::Security(s), StatementInput::Security { ids, visible, incident }) =>
            security_stmt_spec(s, ids, visible, incident, system),
        _ => Err(ErrorView::NotAMutation),
    }
}

/// How many elements a statement created under generated numbers.
pub open spec fn created_by(input: StatementInput) -> int {
    match input {
        StatementInput::Insert { plan, .. } => plan.ids@.len() as int,
        _ => 0,
    }
}

/// Resolves a statement.
pub fn resolve_statement(
    stmt: &Statement,
    input: StatementInput,
    state: &GraphsState,
    system: Instant,
) -> (r: Result<Effects, EngineError>)
    requires
        state.wf(),
        input_fits(*stmt, input),
    ensures
        match r {
            Ok(eff) => eff.wf() && statement_spec(*stmt, input, state@, system) == Ok::<
                EffectsView,
                ErrorView,
            >(eff@),
            Err(e) => statement_spec(*stmt, input, state@, system) == Err::<
                EffectsView,
                ErrorView,
            >(e@),
        },
{
    match (stmt, input) {
        (
            Statement::Insert(_),
            StatementInput::Insert { plan, derived, valid_from, valid_to },
        ) => resolve_insert(plan, &derived, system, valid_from, valid_to),
        (
            Statement::Mutate(m),
            StatementInput::Mutate { rows, kinds, visible, incident },
        ) => resolve_delete(m, &rows, &kinds, &visible, &incident, system),
        (Statement::Assign(s), StatementInput::Assign { set_rows, vars, kinds, visible }) => resolve_set(
            &s.items,
            &set_rows,
            &vars,
            &kinds,
            &s.match_part,
            &visible,
            system,
        ),
        (Statement::Remove(s), StatementInput::Remove { rows, kinds, visible }) => resolve_remove(
            &s.items,
            &rows,
            &kinds,
            &s.match_part,
            &visible,
            system,
        ),
        (Statement::Graph(g), StatementInput::Graph { iid }) => resolve_graph_stmt(
            state,
            g,
            iid,
            system,
        ),
        (Statement::Security(s), StatementInput::Security { ids, visible, incident }) =>
            resolve_security_stmt(s, &ids, &visible, &incident, system),
        _ => Err(EngineError::NotAMutation),
    }
}

/// What a statement is held to: the grants, and what the elements it touches
/// are now.
pub struct Enforcement<'a> {
    pub grants: &'a GraphGrants,
    pub visible: &'a Visible,
}

/// A statement's effects, where the user may write all that it touches.
pub open spec fn admitted(
    resolved: Result<EffectsView, ErrorView>,
    enforcement: Option<Enforcement>,
    user: Seq<char>,
    graph: Seq<char>,
) -> Result<EffectsView, ErrorView> {
    match (resolved, enforcement) {
        (Ok(eff), Some(x)) => match enforce_spec(eff, *x.grants, *x.visible, user, graph) {
            Some(e) => Err(e),
            None => Ok(eff),
        },
        _ => resolved,
    }
}

impl Transaction {
    /// Resolves one more statement and adds its effects. Where it fails, or
    /// where the user may not write what it touches, the transaction stays as
    /// it is and the program is refused.
    pub fn step(
        &mut self,
        stmt: &Statement,
        input: StatementInput,
        state: &GraphsState,
        enforcement: Option<Enforcement>,
        user: &str,
        graph: &str,
    ) -> (r: Result<(), EngineError>)
        requires
            old(self).wf(),
            state.wf(),
            input_fits(*stmt, input),
            enforcement matches Some(x) ==> x.grants.wf() && x.visible.wf(),
            old(self).created + created_by(input) <= u64::MAX,
        ensures
            final(self).wf(),
            final(self).tx_id == old(self).tx_id,
            final(self).system == old(self).system,
            final(self).graph == old(self).graph,
            ({
                let want = admitted(
                    statement_spec(*stmt, input, state@, old(self).system),
                    enforcement,
                    user@,
                    graph@,
                );
                match r {
                    Ok(()) => want is Ok && final(self).effects@ == old(self).effects@.merged(
                        want->Ok_0,
                    ) && final(self).created == old(self).created + created_by(input),
                    Err(e) => want == Err::<EffectsView, ErrorView>(e@) && *final(self) == *old(
                        self,
                    ),
                }
            }),
    {
        let created: u64 = match &input {
            StatementInput::Insert { plan, .. } => plan.ids.len() as u64,
            _ => 0,
        };
        let effects = match resolve_statement(stmt, input, state, self.system) {
            Ok(eff) => eff,
            Err(e) => {
                return Err(e);
            },
        };
        match enforcement {
            Some(x) => {
                match enforce_write_effects(&effects, x.grants, x.visible, user, graph) {
                    Ok(()) => {},
                    Err(e) => {
                        return Err(e);
                    },
                }
            },
            None => {},
        }
        self.absorb(effects, created);
        Ok(())
    }
}

} // verus!
