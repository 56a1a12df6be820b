//! The variables of a mutation's `MATCH` and the rows they are bound in.

use crate::ast::{Direction, Hop, PathPattern};
use crate::error::{EngineError, ErrorView};
use crate::fold::{lemma_try_fold_all, lemma_try_fold_fails, lemma_try_fold_step, try_fold};
use crate::sorted::SortedMap;
use crate::state::TableKind;
use crate::text::{concat3, lemma_views_push, text_is, views};
use crate::types::Iid;
use vstd::prelude::*;

verus! {

/// What a variable is bound to.
#[derive(Clone, Copy, Debug, PartialEq, Eq, Structural)]
pub enum BindingKind {
    Node,
    Edge,
}

/// The table that holds a kind of element.
pub fn table_for_binding(kind: BindingKind) -> (r: TableKind)
    ensures
        r == (match kind {
            BindingKind::Node => TableKind::Nodes,
            BindingKind::Edge => TableKind::Edges,
        }),
{
    match kind {
        BindingKind::Node => TableKind::Nodes,
        BindingKind::Edge => TableKind::Edges,
    }
}

/// One matched row: an element for each bound variable.
pub type Row = SortedMap<String, Iid>;

/// The row of a match: each variable whose identifier is not null is bound to it.
pub open spec fn bound_row(vars: Seq<Seq<char>>, iids: Seq<Option<Iid>>) -> Map<Seq<char>, Iid>
    decreases vars.len(),
{
    if vars.len() == 0 {
        Map::empty()
    } else {
        let before = bound_row(vars.drop_last(), iids.drop_last());
        match iids.last() {
            Some(iid) => before.insert(vars.last(), iid),
            None => before,
        }
    }
}

/// Binds each variable to the identifier that a match gives it.
pub fn row_bindings(vars: &Vec<String>, iids: &Vec<Option<Iid>>) -> (r: Row)
    requires
        vars@.len() == iids@.len(),
    ensures
        r.wf(),
        r@ == bound_row(views(vars@), iids@),
{
    let mut r: Row = SortedMap::new();
    let mut i: usize = 0;
    while i < vars.len()
        invariant
            i <= vars@.len() == iids@.len(),
            r.wf(),
            r@ == bound_row(views(vars@).take(i as int), iids@.take(i as int)),
        decreases vars@.len() - i,
    {
        assert(views(vars@).take(i + 1).drop_last() =~= views(vars@).take(i as int));
        assert(iids@.take(i + 1).drop_last() =~= iids@.take(i as int));
        match iids[i] {
            Some(iid) => {
                r.insert(vars[i].clone(), iid);
            },
            None => {},
        }
        i = i + 1;
    }
    assert(views(vars@).take(i as int) =~= views(vars@));
    assert(iids@.take(i as int) =~= iids@);
    r
}

/// Each variable of a match is named once, so a row binds exactly those with an
/// identifier, each to its own.
pub proof fn law_rows_bind_what_is_found(vars: Seq<Seq<char>>, iids: Seq<Option<Iid>>, i: int)
    requires
        vars.len() == iids.len(),
        vars.no_duplicates(),
        0 <= i < vars.len(),
    ensures
        bound_row(vars, iids).dom().contains(vars[i]) <==> iids[i] is Some,
        iids[i] is Some ==> bound_row(vars, iids)[vars[i]] == iids[i]->0,
    decreases vars.len(),
{
    let before = vars.drop_last();
    if i < before.len() {
        law_rows_bind_what_is_found(before, iids.drop_last(), i);
        assert(vars[i] != vars.last());
    } else {
        assert forall|v: Seq<char>| bound_row(before, iids.drop_last()).dom().contains(v) implies before.contains(v) by {
            lemma_bound_is_named(before, iids.drop_last(), v);
        }
        if before.contains(vars[i]) {
            let j = choose|j: int| 0 <= j < before.len() && before[j] == vars[i];
            assert(vars[j] == vars[i]);
        }
    }
}

proof fn lemma_bound_is_named(vars: Seq<Seq<char>>, iids: Seq<Option<Iid>>, v: Seq<char>)
    requires
        vars.len() == iids.len(),
        bound_row(vars, iids).dom().contains(v),
    ensures
        vars.contains(v),
    decreases vars.len(),
{
    if vars.last() != v {
        lemma_bound_is_named(vars.drop_last(), iids.drop_last(), v);
        let j = choose|j: int| 0 <= j < vars.drop_last().len() && vars.drop_last()[j] == v;
        assert(vars[j] == v);
    } else {
        assert(vars[vars.len() - 1] == v);
    }
}

/// The kind of each variable.
pub type Kinds = SortedMap<String, BindingKind>;

/// The variables bound so far, in order of first mention, with their kinds.
#[verifier::ext_equal]
pub struct BoundVars {
    pub vars: Seq<Seq<char>>,
    pub kinds: Map<Seq<char>, BindingKind>,
}

/// The text of an optional name.
pub open spec fn opt_text(v: Option<String>) -> Option<Seq<char>> {
    match v {
        Some(s) => Some(s@),
        None => None,
    }
}

pub open spec fn multiple_kinds(var: Seq<char>) -> ErrorView {
    ErrorView::Unsupported(
        "mutation MATCH variable "@ + var + " bound to multiple element kinds"@,
    )
}

/// One more mention of a variable: it must keep its kind, and is listed when
/// it is new.
pub open spec fn bind_var(
    st: BoundVars,
    var: Option<Seq<char>>,
    kind: BindingKind,
) -> Result<BoundVars, ErrorView> {
    match var {
        None => Ok(st),
        Some(v) => if st.kinds.dom().contains(v) {
            if st.kinds[v] != kind {
                Err(multiple_kinds(v))
            } else {
                Ok(st)
            }
        } else {
            Ok(BoundVars { vars: st.vars.push(v), kinds: st.kinds.insert(v, kind) })
        },
    }
}

/// Adds one mention of a variable.
pub fn add_binding_var(
    vars: &mut Vec<String>,
    kinds: &mut Kinds,
    var: &Option<String>,
    kind: BindingKind,
) -> (r: Result<(), EngineError>)
    requires
        old(kinds).wf(),
    ensures
        final(kinds).wf(),
        ({
            let st = BoundVars { vars: views(old(vars)@), kinds: old(kinds)@ };
            match r {
                Ok(()) => bind_var(st, opt_text(*var), kind) == Ok::<BoundVars, ErrorView>(
                    BoundVars { vars: views(final(vars)@), kinds: final(kinds)@ },
                ),
                Err(e) => bind_var(st, opt_text(*var), kind) == Err::<BoundVars, ErrorView>(e@)
                    && final(vars)@ == old(vars)@ && final(kinds)@ == old(kinds)@,
            }
        }),
{
    match var {
        None => Ok(()),
        Some(var) => {
            match kinds.get(var) {
                Some(existing) => {
                    if *existing != kind {
                        return Err(
                            EngineError::Unsupported(
                                concat3(
                                    "mutation MATCH variable ",
                                    var.as_str(),
                                    " bound to multiple element kinds",
                                ),
                            ),
                        );
                    }
                    return Ok(());
                },
                None => {},
            }
            kinds.insert(var.clone(), kind);
            let name = var.clone();
            proof {
                lemma_views_push(vars@, name);
            }
            vars.push(name);
            Ok(())
        },
    }
}

/// The variables of one hop.
pub open spec fn bind_hop(st: BoundVars, h: Hop) -> Result<BoundVars, ErrorView> {
    if h.edge.quantified {
        Err(ErrorView::Unsupported("quantified hop in mutation MATCH part"@))
    } else {
        match bind_var(st, opt_text(h.edge.var), BindingKind::Edge) {
            Err(e) => Err(e),
            Ok(st) => bind_var(st, opt_text(h.node.var), BindingKind::Node),
        }
    }
}

/// The variables of one path.
pub open spec fn bind_path(st: BoundVars, p: PathPattern) -> Result<BoundVars, ErrorView> {
    if p.var is Some {
        Err(ErrorView::Unsupported("path variable in mutation MATCH part"@))
    } else {
        match bind_var(st, opt_text(p.start.var), BindingKind::Node) {
            Err(e) => Err(e),
            Ok(st) => try_fold(p.hops@, st, |s: BoundVars, h: Hop| bind_hop(s, h)),
        }
    }
}

/// The variables of a `MATCH`: each in order of first mention, with its kind.
pub open spec fn bind_paths(paths: Seq<PathPattern>) -> Result<BoundVars, ErrorView> {
    try_fold(
        paths,
        BoundVars { vars: Seq::empty(), kinds: Map::empty() },
        |s: BoundVars, p: PathPattern| bind_path(s, p),
    )
}

fn bind_hops_into(vars: &mut Vec<String>, kinds: &mut Kinds, hops: &Vec<Hop>) -> (r: Result<
    (),
    EngineError,
>)
    requires
        old(kinds).wf(),
    ensures
        final(kinds).wf(),
        ({
            let st = BoundVars { vars: views(old(vars)@), kinds: old(kinds)@ };
            let all = try_fold(hops@, st, |s: BoundVars, h: Hop| bind_hop(s, h));
            match r {
                Ok(()) => all == Ok::<BoundVars, ErrorView>(
                    BoundVars { vars: views(final(vars)@), kinds: final(kinds)@ },
                ),
                Err(e) => all == Err::<BoundVars, ErrorView>(e@),
            }
        }),
{
    let ghost st = BoundVars { vars: views(vars@), kinds: kinds@ };
    let ghost step = |s: BoundVars, h: Hop| bind_hop(s, h);
    let mut i: usize = 0;
    proof {
        lemma_try_fold_all(hops@, st, step);
    }
    while i < hops.len()
        invariant
            i <= hops.len(),
            kinds.wf(),
            st == (BoundVars { vars: views(old(vars)@), kinds: old(kinds)@ }),
            step == (|s: BoundVars, h: Hop| bind_hop(s, h)),
            try_fold(hops@.subrange(0, i as int), st, step) == Ok::<BoundVars, ErrorView>(
                BoundVars { vars: views(vars@), kinds: kinds@ },
            ),
        decreases hops.len() - i,
    {
        proof {
            lemma_try_fold_step(hops@, st, step, i as int);
            if try_fold(hops@.subrange(0, i + 1), st, step) is Err {
                lemma_try_fold_fails(hops@, st, step, i + 1);
            }
        }
        let hop = &hops[i];
        if hop.edge.quantified {
            return Err(
                EngineError::Unsupported("quantified hop in mutation MATCH part".to_owned()),
            );
        }
        match add_binding_var(vars, kinds, &hop.edge.var, BindingKind::Edge) {
            Ok(()) => {},
            Err(e) => {
                return Err(e);
            },
        }
        match add_binding_var(vars, kinds, &hop.node.var, BindingKind::Node) {
            Ok(()) => {},
            Err(e) => {
                return Err(e);
            },
        }
        i += 1;
    }
    proof {
        lemma_try_fold_all(hops@, st, step);
    }
    Ok(())
}

/// The variables of a mutation's `MATCH` in order of first mention, with their
/// kinds.
pub fn match_binding_vars(paths: &Vec<PathPattern>) -> (r: Result<
    (Vec<String>, Kinds),
    EngineError,
>)
    ensures
        match r {
            Ok((vars, kinds)) => kinds.wf() && bind_paths(paths@) == Ok::<BoundVars, ErrorView>(
                BoundVars { vars: views(vars@), kinds: kinds@ },
            ),
            Err(e) => bind_paths(paths@) == Err::<BoundVars, ErrorView>(e@),
        },
{
    let mut vars: Vec<String> = Vec::new();
    let mut kinds: Kinds = SortedMap::new();
    let ghost st = BoundVars { vars: Seq::empty(), kinds: Map::empty() };
    let ghost step = |s: BoundVars, p: PathPattern| bind_path(s, p);
    let mut i: usize = 0;
    proof {
        lemma_try_fold_all(paths@, st, step);
        assert(views(vars@) =~= Seq::empty());
    }
    while i < paths.len()
        invariant
            i <= paths.len(),
            kinds.wf(),
            st == (BoundVars { vars: Seq::empty(), kinds: Map::empty() }),
            step == (|s: BoundVars, p: PathPattern| bind_path(s, p)),
            try_fold(paths@.subrange(0, i as int), st, step) == Ok::<BoundVars, ErrorView>(
                BoundVars { vars: views(vars@), kinds: kinds@ },
            ),
        decreases paths.len() - i,
    {
        proof {
            lemma_try_fold_step(paths@, st, step, i as int);
            if try_fold(paths@.subrange(0, i + 1), st, step) is Err {
                lemma_try_fold_fails(paths@, st, step, i + 1);
            }
        }
        let path = &paths[i];
        if path.var.is_some() {
            return Err(
                EngineError::Unsupported("path variable in mutation MATCH part".to_owned()),
            );
        }
        match add_binding_var(&mut vars, &mut kinds, &path.start.var, BindingKind::Node) {
            Ok(()) => {},
            Err(e) => {
                return Err(e);
            },
        }
        match bind_hops_into(&mut vars, &mut kinds, &path.hops) {
            Ok(()) => {},
            Err(e) => {
                return Err(e);
            },
        }
        i += 1;
    }
    proof {
        lemma_try_fold_all(paths@, st, step);
    }
    Ok((vars, kinds))
}

pub open spec fn unbound_endpoints(edge_var: Seq<char>) -> ErrorView {
    ErrorView::Unsupported(
        "DELETE edge variable '"@ + edge_var + "' requires bound endpoint variables"@,
    )
}

/// The element bound to an optional variable.
pub open spec fn bound_iid(var: Option<Seq<char>>, row: Map<Seq<char>, Iid>) -> Option<Iid> {
    match var {
        Some(v) => if row.dom().contains(v) {
            Some(row[v])
        } else {
            None
        },
        None => None,
    }
}

/// The ends of the hop that binds `edge_var`, searched from hop `i` on, where
/// `prev` names the node before hop `i`. The ends are given as source and
/// destination.
pub open spec fn endpoints_in_hops(
    prev: Option<Seq<char>>,
    hops: Seq<Hop>,
    i: int,
    edge_var: Seq<char>,
    row: Map<Seq<char>, Iid>,
) -> Option<Result<(Iid, Iid), ErrorView>>
    decreases hops.len() - i,
{
    if i < 0 || i >= hops.len() {
        None
    } else {
        let h = hops[i];
        if opt_text(h.edge.var) == Some(edge_var) {
            match (bound_iid(prev, row), bound_iid(opt_text(h.node.var), row)) {
                (Some(left), Some(right)) => Some(
                    Ok(
                        match h.edge.direction {
                            Direction::Out => (left, right),
                            Direction::In => (right, left),
                        },
                    ),
                ),
                _ => Some(Err(unbound_endpoints(edge_var))),
            }
        } else {
            endpoints_in_hops(opt_text(h.node.var), hops, i + 1, edge_var, row)
        }
    }
}

/// The ends of the edge bound to `edge_var`, searched from path `i` on.
pub open spec fn endpoints_in_paths(
    paths: Seq<PathPattern>,
    i: int,
    edge_var: Seq<char>,
    row: Map<Seq<char>, Iid>,
) -> Result<(Iid, Iid), ErrorView>
    decreases paths.len() - i,
{
    if i < 0 || i >= paths.len() {
        Err(ErrorView::UnboundVariable(edge_var))
    } else {
        match endpoints_in_hops(opt_text(paths[i].start.var), paths[i].hops@, 0, edge_var, row) {
            Some(found) => found,
            None => endpoints_in_paths(paths, i + 1, edge_var, row),
        }
    }
}

fn lookup_var(var: &Option<String>, row: &Row) -> (r: Option<Iid>)
    requires
        row.wf(),
    ensures
        r == bound_iid(opt_text(*var), row@),
{
    match var {
        Some(v) => match row.get(v) {
            Some(iid) => Some(*iid),
            None => None,
        },
        None => None,
    }
}

fn find_in_hops(path: &PathPattern, edge_var: &str, row: &Row) -> (r: Option<
    Result<(Iid, Iid), EngineError>,
>)
    requires
        row.wf(),
    ensures
        match r {
            None => endpoints_in_hops(opt_text(path.start.var), path.hops@, 0, edge_var@, row@)
                is None,
            Some(Ok(ends)) => endpoints_in_hops(
                opt_text(path.start.var),
                path.hops@,
                0,
                edge_var@,
                row@,
            ) == Some(Ok::<(Iid, Iid), ErrorView>(ends)),
            Some(Err(e)) => endpoints_in_hops(
                opt_text(path.start.var),
                path.hops@,
                0,
                edge_var@,
                row@,
            ) == Some(Err::<(Iid, Iid), ErrorView>(e@)),
        },
{
    let mut i: usize = 0;
    let mut prev: &Option<String> = &path.start.var;
    while i < path.hops.len()
        invariant
            i <= path.hops.len(),
            row.wf(),
            endpoints_in_hops(opt_text(path.start.var), path.hops@, 0, edge_var@, row@)
                == endpoints_in_hops(opt_text(*prev), path.hops@, i as int, edge_var@, row@),
        decreases path.hops.len() - i,
    {
        let hop = &path.hops[i];
        let is_target = match &hop.edge.var {
            Some(v) => text_is(v, edge_var),
            None => false,
        };
        if is_target {
            let left = lookup_var(prev, row);
            let right = lookup_var(&hop.node.var, row);
            return match (left, right) {
                (Some(left), Some(right)) => Some(
                    Ok(
                        match hop.edge.direction {
                            Direction::Out => (left, right),
                            Direction::In => (right, left),
                        },
                    ),
                ),
                _ => Some(
                    Err(
                        EngineError::Unsupported(
                            concat3(
                                "DELETE edge variable '",
                                edge_var,
                                "' requires bound endpoint variables",
                            ),
                        ),
                    ),
                ),
            };
        }
        prev = &hop.node.var;
        i += 1;
    }
    None
}

/// The source and destination of the edge that a row binds to `edge_var`: the
/// ends of the first hop with that variable.
pub fn edge_endpoints_from_match_row(
    paths: &Vec<PathPattern>,
    edge_var: &str,
    row: &Row,
) -> (r: Result<(Iid, Iid), EngineError>)
    requires
        row.wf(),
    ensures
        match r {
            Ok(ends) => endpoints_in_paths(paths@, 0, edge_var@, row@) == Ok::<
                (Iid, Iid),
                ErrorView,
            >(ends),
            Err(e) => endpoints_in_paths(paths@, 0, edge_var@, row@) == Err::<
                (Iid, Iid),
                ErrorView,
            >(e@),
        },
{
    let mut i: usize = 0;
    while i < paths.len()
        invariant
            i <= paths.len(),
            row.wf(),
            endpoints_in_paths(paths@, 0, edge_var@, row@) == endpoints_in_paths(
                paths@,
                i as int,
                edge_var@,
                row@,
            ),
        decreases paths.len() - i,
    {
        match find_in_hops(&paths[i], edge_var, row) {
            Some(found) => {
                return found;
            },
            None => {},
        }
        i += 1;
    }
    Err(EngineError::UnboundVariable(edge_var.to_owned()))
}

proof fn lemma_hops_without(
    prev: Option<Seq<char>>,
    hops: Seq<Hop>,
    i: int,
    edge_var: Seq<char>,
    row: Map<Seq<char>, Iid>,
)
    requires
        0 <= i <= hops.len(),
        forall|k: int|
            i <= k < hops.len() ==> opt_text((#[trigger] hops[k]).edge.var) != Some(edge_var),
    ensures
        endpoints_in_hops(prev, hops, i, edge_var, row) is None,
    decreases hops.len() - i,
{
    if i < hops.len() {
        assert(opt_text(hops[i].edge.var) != Some(edge_var));
        lemma_hops_without(opt_text(hops[i].node.var), hops, i + 1, edge_var, row);
    }
}

proof fn lemma_hops_at(
    start: Option<Seq<char>>,
    hops: Seq<Hop>,
    i: int,
    j: int,
    edge_var: Seq<char>,
    row: Map<Seq<char>, Iid>,
)
    requires
        0 <= i <= j < hops.len(),
        opt_text(hops[j].edge.var) == Some(edge_var),
        forall|k: int|
            i <= k < j ==> opt_text((#[trigger] hops[k]).edge.var) != Some(edge_var),
    ensures
        ({
            let prev = if i == 0 {
                start
            } else {
                opt_text(hops[i - 1].node.var)
            };
            let left = if j == 0 {
                start
            } else {
                opt_text(hops[j - 1].node.var)
            };
            endpoints_in_hops(prev, hops, i, edge_var, row) == endpoints_in_hops(
                left,
                hops,
                j,
                edge_var,
                row,
            )
        }),
    decreases j - i,
{
    if i < j {
        assert(opt_text(hops[i].edge.var) != Some(edge_var));
        lemma_hops_at(start, hops, i + 1, j, edge_var, row);
    }
}

/// The ends of an edge that a row binds are the nodes on both sides of the
/// first hop with its variable: the node before the hop is the source where the
/// hop points on, and the destination where it points back. Both must be bound.
pub proof fn law_ends_follow_the_hop(
    paths: Seq<PathPattern>,
    p: int,
    j: int,
    edge_var: Seq<char>,
    row: Map<Seq<char>, Iid>,
    at: int,
)
    requires
        0 <= at <= p < paths.len(),
        0 <= j < paths[p].hops@.len(),
        paths[p].hops@[j].edge.var matches Some(v) && v@ == edge_var,
        forall|k: int|
            0 <= k < j ==> !((#[trigger] paths[p].hops@[k]).edge.var matches Some(v) && v@
                == edge_var),
        forall|q: int, k: int|
            at <= q < p && 0 <= k < paths[q].hops@.len() ==> !((
            #[trigger] paths[q].hops@[k]).edge.var matches Some(v) && v@ == edge_var),
    ensures
        ({
            let h = paths[p].hops@[j];
            let before = if j == 0 {
                paths[p].start.var
            } else {
                paths[p].hops@[j - 1].node.var
            };
            let found = endpoints_in_paths(paths, at, edge_var, row);
            match (before, h.node.var) {
                (Some(a), Some(b)) => if row.dom().contains(a@) && row.dom().contains(b@) {
                    &&& (h.edge.direction is Out ==> found == Ok::<(Iid, Iid), ErrorView>(
                        (row[a@], row[b@]),
                    ))
                    &&& (h.edge.direction is In ==> found == Ok::<(Iid, Iid), ErrorView>(
                        (row[b@], row[a@]),
                    ))
                } else {
                    found is Err
                },
                _ => found is Err,
            }
        }),
    decreases p - at,
{
    if at < p {
        let hops = paths[at].hops@;
        assert forall|k: int| 0 <= k < hops.len() implies opt_text(
            (#[trigger] hops[k]).edge.var,
        ) != Some(edge_var) by {
            assert(!(paths[at].hops@[k].edge.var matches Some(v) && v@ == edge_var));
        }
        lemma_hops_without(opt_text(paths[at].start.var), hops, 0, edge_var, row);
        law_ends_follow_the_hop(paths, p, j, edge_var, row, at + 1);
    } else {
        let hops = paths[p].hops@;
        assert forall|k: int| 0 <= k < j implies opt_text((#[trigger] hops[k]).edge.var) != Some(
            edge_var,
        ) by {
            assert(!(paths[p].hops@[k].edge.var matches Some(v) && v@ == edge_var));
        }
        lemma_hops_at(opt_text(paths[p].start.var), hops, 0, j, edge_var, row);
    }
}

/// A variable that a `MATCH` mentions keeps one kind: a mention of the other
/// kind is refused, a second mention changes nothing, a first one is listed
/// last.
pub proof fn law_variables_keep_their_kind(st: BoundVars, v: Seq<char>, kind: BindingKind)
    ensures
        st.kinds.dom().contains(v) && st.kinds[v] == kind ==> bind_var(st, Some(v), kind) == Ok::<
            BoundVars,
            ErrorView,
        >(st),
        st.kinds.dom().contains(v) && st.kinds[v] != kind ==> bind_var(st, Some(v), kind) is Err,
        !st.kinds.dom().contains(v) ==> (bind_var(st, Some(v), kind) matches Ok(w) && w.vars
            == st.vars.push(v) && w.kinds == st.kinds.insert(v, kind)),
        bind_var(st, None, kind) == Ok::<BoundVars, ErrorView>(st),
{
}

/// A hop binds its edge as an edge and its node as a node.
pub proof fn law_hops_bind_both_elements(st: BoundVars, h: Hop)
    requires
        bind_hop(st, h) is Ok,
    ensures
        ({
            let w = bind_hop(st, h)->Ok_0;
            &&& !h.edge.quantified
            &&& (h.edge.var matches Some(v) ==> w.kinds.dom().contains(v@) && w.kinds[v@] is Edge)
            &&& (h.node.var matches Some(v) ==> w.kinds.dom().contains(v@) && w.kinds[v@] is Node)
            &&& forall|x: Seq<char>| #[trigger]
                st.kinds.dom().contains(x) ==> w.kinds.dom().contains(x) && w.kinds[x]
                    == st.kinds[x]
            &&& st.vars.len() <= w.vars.len()
        }),
{
}

} // verus!
