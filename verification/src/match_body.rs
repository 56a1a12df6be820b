//! The queries that a mutation runs to find what it changes.

use crate::ast::Expr;
use crate::text::{clone_texts, views};
use vstd::prelude::*;

verus! {

/// What one column of a query returns: the identity of a variable, under the
/// variable's name, or an expression.
pub enum ReturnItem {
    Identity(String),
    Projected { expr: Expr, alias: Option<String> },
}

/// What a mutation's query returns: its columns, whether equal rows count once,
/// and the variables whose identities order the rows.
pub struct MatchBody {
    pub distinct: bool,
    pub items: Vec<ReturnItem>,
    pub order_by: Vec<String>,
}

/// The identity of each variable.
pub open spec fn identities(items: Seq<ReturnItem>, vars: Seq<String>) -> bool {
    &&& items.len() >= vars.len()
    &&& forall|i: int|
        0 <= i < vars.len() ==> ((#[trigger] items[i]) matches ReturnItem::Identity(v) && v@
            == vars[i]@)
}

fn identity_items(vars: &Vec<String>) -> (r: Vec<ReturnItem>)
    ensures
        r@.len() == vars@.len(),
        identities(r@, vars@),
{
    let mut items: Vec<ReturnItem> = Vec::new();
    let mut i: usize = 0;
    while i < vars.len()
        invariant
            i <= vars.len(),
            items@.len() == i,
            forall|k: int|
                0 <= k < i ==> ((#[trigger] items@[k]) matches ReturnItem::Identity(v) && v@
                    == vars@[k]@),
        decreases vars.len() - i,
    {
        items.push(ReturnItem::Identity(vars[i].clone()));
        i += 1;
    }
    items
}

/// The query that finds the rows of a `MATCH`: each combination of bound
/// elements once.
pub fn match_part_body(vars: &Vec<String>) -> (r: MatchBody)
    ensures
        r.distinct,
        r.items@.len() == vars@.len(),
        identities(r.items@, vars@),
        r.order_by@.len() == 0,
{
    MatchBody { distinct: true, items: identity_items(vars), order_by: Vec::new() }
}

/// The query that finds the rows of a `MATCH` with the values of expressions,
/// every row of them, in the order of the identities of its variables.
pub fn match_projection_body(vars: &Vec<String>, projected: Vec<(Expr, Option<String>)>) -> (r:
    MatchBody)
    ensures
        !r.distinct,
        r.items@.len() == vars@.len() + projected@.len(),
        identities(r.items@, vars@),
        forall|i: int|
            0 <= i < projected@.len() ==> #[trigger] r.items@[vars@.len() + i] == (
            ReturnItem::Projected { expr: projected@[i].0, alias: projected@[i].1 }),
        views(r.order_by@) == views(vars@),
{
    let mut items = identity_items(vars);
    let ghost first = items@;
    let ghost all = projected@;
    for pair in it: projected
        invariant
            it.seq() == all,
            first.len() == vars@.len(),
            identities(first, vars@),
            items@.len() == first.len() + it.index(),
            forall|i: int| 0 <= i < first.len() ==> #[trigger] items@[i] == first[i],
            forall|i: int|
                first.len() <= i < items@.len() ==> #[trigger] items@[i] == (
                ReturnItem::Projected {
                    expr: all[i - first.len()].0,
                    alias: all[i - first.len()].1,
                }),
    {
        assert(all[it.index() as int] == pair);
        let (expr, alias) = pair;
        items.push(ReturnItem::Projected { expr, alias });
    }
    assert forall|i: int| 0 <= i < vars@.len() implies ((
    #[trigger] items@[i]) matches ReturnItem::Identity(v) && v@ == vars@[i]@) by {
        assert(items@[i] == first[i]);
    }
    MatchBody { distinct: false, items, order_by: clone_texts(vars) }
}

} // verus!
