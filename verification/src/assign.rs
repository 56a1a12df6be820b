//! `MATCH ... SET`.

use crate::ast::{PathPattern, SetItem};
use crate::bindings::{bound_row, row_bindings, BindingKind, Kinds, Row};
use crate::effects::{Effects, EffectsView};
use crate::error::{EngineError, ErrorView};
use crate::fold::{
    lemma_try_fold_all, lemma_try_fold_fails, lemma_try_fold_step, try_fold,
};
use crate::sorted::SortedMap;
use crate::text::{concat2, concat3, decimal, text_is, views};
use crate::types::{clone_bytes, Iid, Instant, Value, ValueView};
use crate::update::{
    cell_view, change_bound, change_row, differs, law_changed_elements_are_written,
    law_changes_do_what_they_say, law_rows_change_what_they_bind, pending_effects, pending_view,
    pending_wf, push_pending_effects, set_value_alias, writes, Change, ChangeView, PendingEntity,
    PendingMap, PendingView,
};
use crate::visible::Visible;
use vstd::prelude::*;

verus! {

/// One matched row of a `SET`: the bound elements, and for each item the value
/// of its expression (or the text of the failure to read it).
pub struct SetRow {
    pub binds: Row,
    pub cells: Vec<Result<Value, String>>,
}

#[verifier::ext_equal]
pub struct SetRowView {
    pub binds: Map<Seq<char>, Iid>,
    pub cells: Seq<Result<ValueView, Seq<char>>>,
}

impl View for SetRow {
    type V = SetRowView;

    open spec fn view(&self) -> SetRowView {
        SetRowView {
            binds: self.binds@,
            cells: self.cells@.map_values(|c: Result<Value, String>| cell_view(c)),
        }
    }
}

/// What a match holds in one column of one row.
pub enum Cell {
    /// There is no such column.
    Missing,
    Null,
    Int(i64),
    /// The bits of a floating-point number.
    Float(u64),
    Str(String),
    Bool(bool),
    Bytes(Vec<u8>),
    /// The column is of the named type, but its values are stored as another.
    Mismatched(String),
    /// The column is of the named type, which no property can have.
    Other(String),
}

/// The value of a cell in a named column, or the text of the failure.
pub open spec fn cell_value(col: Seq<char>, cell: Cell) -> Result<ValueView, Seq<char>> {
    match cell {
        Cell::Missing => Err("SET expression column "@ + col + " missing"@),
        Cell::Null => Ok(ValueView::Null),
        Cell::Int(i) => Ok(ValueView::Int(i as int)),
        Cell::Float(b) => Ok(ValueView::Float(b)),
        Cell::Str(s) => Ok(ValueView::Str(s@)),
        Cell::Bool(b) => Ok(ValueView::Bool(b)),
        Cell::Bytes(b) => Ok(ValueView::Bytes(b@)),
        Cell::Mismatched(t) => Err("SET expression array type mismatch for "@ + t@),
        Cell::Other(t) => Err("SET expression type "@ + t@),
    }
}

/// Reads the value of a cell.
pub fn value_from_cell(col: &str, cell: &Cell) -> (r: Result<Value, String>)
    ensures
        cell_view(r) == cell_value(col@, *cell),
{
    match cell {
        Cell::Missing => Err(concat3("SET expression column ", col, " missing")),
        Cell::Null => Ok(Value::Null),
        Cell::Int(i) => Ok(Value::Int(*i)),
        Cell::Float(b) => Ok(Value::Float(*b)),
        Cell::Str(s) => Ok(Value::Str(s.clone())),
        Cell::Bool(b) => Ok(Value::Bool(*b)),
        Cell::Bytes(b) => Ok(Value::Bytes(clone_bytes(b))),
        Cell::Mismatched(t) => Err(
            concat2("SET expression array type mismatch for ", t.as_str()),
        ),
        Cell::Other(t) => Err(concat2("SET expression type ", t.as_str())),
    }
}

/// The name of the column that holds the value of an item.
pub open spec fn set_column(i: int) -> Seq<char> {
    "__set_value_"@ + decimal(i as nat)
}

/// The value of a row in the first column of a name, or the text of the failure.
pub open spec fn column_value(
    columns: Seq<Seq<char>>,
    cells: Seq<Cell>,
    col: Seq<char>,
) -> Result<ValueView, Seq<char>>
    decreases columns.len(),
{
    if columns.len() == 0 {
        cell_value(col, Cell::Missing)
    } else if columns[0] == col {
        cell_value(col, cells[0])
    } else {
        column_value(columns.skip(1), cells.skip(1), col)
    }
}

/// Reads the value of a row in a named column.
pub fn value_from_batch(columns: &Vec<String>, cells: &Vec<Cell>, col: &str) -> (r: Result<
    Value,
    String,
>)
    requires
        columns@.len() == cells@.len(),
    ensures
        cell_view(r) == column_value(views(columns@), cells@, col@),
{
    let ghost names = views(columns@);
    let mut i: usize = 0;
    assert(names.skip(0) =~= names);
    assert(cells@.skip(0) =~= cells@);
    while i < columns.len()
        invariant
            names == views(columns@),
            i <= columns@.len() == cells@.len(),
            column_value(names, cells@, col@) == column_value(
                names.skip(i as int),
                cells@.skip(i as int),
                col@,
            ),
        decreases columns@.len() - i,
    {
        if text_is(&columns[i], col) {
            return value_from_cell(col, &cells[i]);
        }
        assert(names.skip(i as int).skip(1) =~= names.skip(i + 1));
        assert(cells@.skip(i as int).skip(1) =~= cells@.skip(i + 1));
        i = i + 1;
    }
    value_from_cell(col, &Cell::Missing)
}

/// The items of a `SET` that have a value: those that write a property.
pub open spec fn valued_items(items: Seq<SetItem>) -> Seq<int>
    decreases items.len(),
{
    if items.len() == 0 {
        Seq::empty()
    } else {
        let before = valued_items(items.drop_last());
        if items.last() is Prop {
            before.push(items.len() - 1)
        } else {
            before
        }
    }
}

/// The items of a `SET` that have a value, each with the column for it.
pub fn set_columns(items: &Vec<SetItem>) -> (r: Vec<(usize, String)>)
    ensures
        r@.len() == valued_items(items@).len(),
        forall|k: int|
            0 <= k < r@.len() ==> (#[trigger] r@[k]).0 == valued_items(items@)[k] && r@[k].1@
                == set_column(r@[k].0 as int),
{
    let mut r: Vec<(usize, String)> = Vec::new();
    let mut i: usize = 0;
    while i < items.len()
        invariant
            i <= items@.len(),
            r@.len() == valued_items(items@.take(i as int)).len(),
            forall|k: int|
                0 <= k < r@.len() ==> (#[trigger] r@[k]).0 == valued_items(
                    items@.take(i as int),
                )[k] && r@[k].1@ == set_column(r@[k].0 as int),
        decreases items@.len() - i,
    {
        assert(items@.take(i + 1).drop_last() =~= items@.take(i as int));
        match &items[i] {
            SetItem::Prop { .. } => r.push((i, set_value_alias(i))),
            SetItem::Label { .. } => {},
        }
        i = i + 1;
    }
    assert(items@.take(i as int) =~= items@);
    r
}

/// One row of a match: the elements of its variables, and for each of `items`
/// items the value in its column.
pub fn read_set_row(
    vars: &Vec<String>,
    iids: &Vec<Option<Iid>>,
    items: usize,
    columns: &Vec<String>,
    cells: &Vec<Cell>,
) -> (r: SetRow)
    requires
        vars@.len() == iids@.len(),
        columns@.len() == cells@.len(),
    ensures
        r.binds.wf(),
        r.binds@ == bound_row(views(vars@), iids@),
        r@.cells == Seq::new(
            items as nat,
            |i: int| column_value(views(columns@), cells@, set_column(i)),
        ),
{
    let mut read: Vec<Result<Value, String>> = Vec::new();
    let mut i: usize = 0;
    while i < items
        invariant
            i <= items,
            columns@.len() == cells@.len(),
            read@.len() == i,
            forall|k: int|
                0 <= k < i ==> cell_view(#[trigger] read@[k]) == column_value(
                    views(columns@),
                    cells@,
                    set_column(k),
                ),
        decreases items - i,
    {
        let col = set_value_alias(i);
        read.push(value_from_batch(columns, cells, col.as_str()));
        i = i + 1;
    }
    let r = SetRow { binds: row_bindings(vars, iids), cells: read };
    assert(r@.cells =~= Seq::new(
        items as nat,
        |i: int| column_value(views(columns@), cells@, set_column(i)),
    ));
    r
}

/// The rows bind well-formed maps and carry a value for each item.
pub open spec fn set_rows_wf(rows: Seq<SetRow>, items: int) -> bool {
    forall|i: int|
        0 <= i < rows.len() ==> (#[trigger] rows[i]).binds.wf() && rows[i].cells@.len() == items
}

/// Lexicographic order of identifier lists.
pub open spec fn iids_less(a: Seq<Iid>, b: Seq<Iid>) -> bool
    decreases a.len(),
{
    if b.len() == 0 {
        false
    } else if a.len() == 0 {
        true
    } else if a[0] != b[0] {
        a[0].bits < b[0].bits
    } else {
        iids_less(a.skip(1), b.skip(1))
    }
}

pub proof fn lemma_iids_less_transitive(a: Seq<Iid>, b: Seq<Iid>, c: Seq<Iid>)
    requires
        !iids_less(b, a),
        !iids_less(c, b),
    ensures
        !iids_less(c, a),
    decreases a.len(),
{
    if a.len() > 0 && b.len() > 0 && c.len() > 0 && a[0] == b[0] && b[0] == c[0] {
        lemma_iids_less_transitive(a.skip(1), b.skip(1), c.skip(1));
    }
}

pub proof fn lemma_iids_less_asymmetric(a: Seq<Iid>, b: Seq<Iid>)
    ensures
        !(iids_less(a, b) && iids_less(b, a)),
    decreases a.len(),
{
    if a.len() > 0 && b.len() > 0 && a[0] == b[0] {
        lemma_iids_less_asymmetric(a.skip(1), b.skip(1));
    }
}

fn iids_before(a: &Vec<Iid>, b: &Vec<Iid>) -> (r: bool)
    ensures
        r == iids_less(a@, b@),
{
    let mut i: usize = 0;
    assert(a@.skip(0) =~= a@);
    assert(b@.skip(0) =~= b@);
    while i < a.len() && i < b.len()
        invariant
            i <= a@.len(),
            i <= b@.len(),
            iids_less(a@, b@) == iids_less(a@.skip(i as int), b@.skip(i as int)),
        decreases a.len() - i,
    {
        if a[i] != b[i] {
            return a[i].bits < b[i].bits;
        }
        assert(a@.skip(i as int).skip(1) =~= a@.skip(i + 1));
        assert(b@.skip(i as int).skip(1) =~= b@.skip(i + 1));
        i += 1;
    }
    i < b.len()
}

/// The first place from `j` on whose key is after `key`.
pub open spec fn place_after(order: Seq<int>, keys: Seq<Seq<Iid>>, key: Seq<Iid>, j: int) -> int
    decreases order.len() - j,
{
    if j < 0 || j >= order.len() {
        order.len() as int
    } else if iids_less(key, keys[order[j]]) {
        j
    } else {
        place_after(order, keys, key, j + 1)
    }
}

/// The places of a list in the order of their keys; places of equal keys keep
/// their order.
pub open spec fn sorted_places(keys: Seq<Seq<Iid>>, n: nat) -> Seq<int>
    decreases n,
{
    if n == 0 {
        Seq::empty()
    } else {
        let i = n - 1;
        let before = sorted_places(keys, i as nat);
        before.insert(place_after(before, keys, keys[i], 0), i)
    }
}

proof fn lemma_place_after(order: Seq<int>, keys: Seq<Seq<Iid>>, key: Seq<Iid>, j: int)
    requires
        0 <= j <= order.len(),
    ensures
        j <= place_after(order, keys, key, j) <= order.len(),
        forall|k: int|
            j <= k < place_after(order, keys, key, j) ==> !iids_less(
                key,
                keys[#[trigger] order[k]],
            ),
        place_after(order, keys, key, j) < order.len() ==> iids_less(
            key,
            keys[order[place_after(order, keys, key, j)]],
        ),
    decreases order.len() - j,
{
    if j < order.len() && !iids_less(key, keys[order[j]]) {
        lemma_place_after(order, keys, key, j + 1);
    }
}

/// The sorted places are all places below `n`, once each, in the order of
/// their keys, and places of equal keys keep their order.
pub proof fn lemma_sorted_places(keys: Seq<Seq<Iid>>, n: nat)
    requires
        n <= keys.len(),
    ensures
        sorted_places(keys, n).len() == n,
        forall|i: int| 0 <= i < n ==> 0 <= #[trigger] sorted_places(keys, n)[i] < n,
        sorted_places(keys, n).no_duplicates(),
        forall|i: int, j: int|
            #![trigger sorted_places(keys, n)[i], sorted_places(keys, n)[j]]
            0 <= i < j < n ==> !iids_less(
                keys[sorted_places(keys, n)[j]],
                keys[sorted_places(keys, n)[i]],
            ) && (keys[sorted_places(keys, n)[i]] == keys[sorted_places(keys, n)[j]]
                ==> sorted_places(keys, n)[i] < sorted_places(keys, n)[j]),
    decreases n,
{
    if n > 0 {
        let m = (n - 1) as nat;
        lemma_sorted_places(keys, m);
        let before = sorted_places(keys, m);
        let key = keys[m as int];
        let p = place_after(before, keys, key, 0);
        lemma_place_after(before, keys, key, 0);
        let after = sorted_places(keys, n);
        assert(after == before.insert(p, m as int));
        assert forall|i: int| 0 <= i < n implies 0 <= #[trigger] after[i] < n by {
            if i < p {
                assert(after[i] == before[i]);
            } else if i > p {
                assert(after[i] == before[i - 1]);
            }
        }
        assert forall|i: int, j: int| 0 <= i < n && 0 <= j < n && i != j implies after[i] != after[j] by {
            let bi = if i < p { i } else { i - 1 };
            let bj = if j < p { j } else { j - 1 };
            if i != p {
                assert(after[i] == before[bi]);
            }
            if j != p {
                assert(after[j] == before[bj]);
            }
        }
        assert forall|i: int, j: int|
            #![trigger after[i], after[j]]
            0 <= i < j < n implies !iids_less(keys[after[j]], keys[after[i]]) && (keys[after[i]]
            == keys[after[j]] ==> after[i] < after[j]) by {
            let bi = if i < p { i } else { i - 1 };
            let bj = if j < p { j } else { j - 1 };
            if i != p && j != p {
                assert(after[i] == before[bi] && after[j] == before[bj]);
            } else if j == p {
                assert(after[i] == before[i]);
            } else {
                assert(after[j] == before[j - 1]);
                lemma_iids_less_asymmetric(key, keys[before[p]]);
                if p < j - 1 {
                    lemma_iids_less_transitive(key, keys[before[p]], keys[before[j - 1]]);
                }
                if key == keys[before[j - 1]] {
                    assert(iids_less(key, keys[before[p]]));
                    assert(false) by {
                        if p < j - 1 {
                            assert(!iids_less(keys[before[j - 1]], keys[before[p]]));
                        } else {
                            lemma_iids_less_asymmetric(key, key);
                        }
                    }
                }
            }
        }
    }
}

fn sort_places(keys: &Vec<Vec<Iid>>) -> (r: Vec<usize>)
    ensures
        r@.map_values(|i: usize| i as int) == sorted_places(
            keys@.map_values(|k: Vec<Iid>| k@),
            keys@.len(),
        ),
        r@.len() == keys@.len(),
        forall|i: int| 0 <= i < r@.len() ==> (#[trigger] r@[i]) < keys@.len(),
{
    let ghost ks = keys@.map_values(|k: Vec<Iid>| k@);
    let mut order: Vec<usize> = Vec::new();
    let mut i: usize = 0;
    assert(order@.map_values(|i: usize| i as int) =~= sorted_places(ks, 0));
    while i < keys.len()
        invariant
            i <= keys.len(),
            ks == keys@.map_values(|k: Vec<Iid>| k@),
            order@.map_values(|i: usize| i as int) == sorted_places(ks, i as nat),
            order@.len() == i,
            forall|j: int| 0 <= j < order@.len() ==> (#[trigger] order@[j]) < i,
        decreases keys.len() - i,
    {
        let ghost places = order@.map_values(|i: usize| i as int);
        let mut p: usize = 0;
        while p < order.len() && !iids_before(&keys[i], &keys[order[p]])
            invariant
                p <= order.len(),
                i < keys.len(),
                order@.len() == i,
                ks == keys@.map_values(|k: Vec<Iid>| k@),
                places == order@.map_values(|i: usize| i as int),
                forall|j: int| 0 <= j < order@.len() ==> (#[trigger] order@[j]) < i,
                place_after(places, ks, ks[i as int], 0) == place_after(
                    places,
                    ks,
                    ks[i as int],
                    p as int,
                ),
            decreases order.len() - p,
        {
            assert(ks[places[p as int]] == keys@[order@[p as int] as int]@);
            p += 1;
        }
        proof {
            if p < order.len() {
                assert(ks[places[p as int]] == keys@[order@[p as int] as int]@);
            }
        }
        order.insert(p, i);
        assert(order@.map_values(|i: usize| i as int) =~= places.insert(p as int, i as int));
        i += 1;
    }
    order
}

pub open spec fn set_item_var_spec(item: SetItem) -> Seq<char> {
    match item {
        SetItem::Prop { var, .. } => var@,
        SetItem::Label { var, .. } => var@,
    }
}

/// The change that item `i` makes in a row.
pub open spec fn set_change(item: SetItem, i: int, row: SetRowView) -> ChangeView {
    match item {
        SetItem::Prop { prop, .. } => ChangeView::SetProp { prop: prop@, value: row.cells[i] },
        SetItem::Label { label, .. } => ChangeView::AddLabel { label: label@ },
    }
}

/// The variable of a `SET` item.
pub fn set_item_var(item: &SetItem) -> (r: &String)
    ensures
        r@ == set_item_var_spec(*item),
{
    match item {
        SetItem::Prop { var, .. } => var,
        SetItem::Label { var, .. } => var,
    }
}

/// The items of one row of a `SET`.
pub open spec fn set_row(
    pending: PendingMap,
    row: SetRowView,
    items: Seq<SetItem>,
    kinds: Map<Seq<char>, BindingKind>,
    paths: Seq<PathPattern>,
    visible: Visible,
) -> Result<PendingMap, ErrorView> {
    try_fold(
        Seq::new(items.len(), |i: int| i),
        pending,
        |m: PendingMap, i: int|
            change_bound(
                m,
                set_item_var_spec(items[i]),
                set_change(items[i], i, row),
                row.binds,
                kinds,
                paths,
                visible,
            ),
    )
}

/// The first item of a `SET` whose variable is not bound.
pub open spec fn set_unbound(
    items: Seq<SetItem>,
    kinds: Map<Seq<char>, BindingKind>,
    i: int,
) -> Option<Seq<char>>
    decreases items.len() - i,
{
    if i < 0 || i >= items.len() {
        None
    } else if !kinds.dom().contains(set_item_var_spec(items[i])) {
        Some(set_item_var_spec(items[i]))
    } else {
        set_unbound(items, kinds, i + 1)
    }
}

/// Every variable is bound in every row.
pub open spec fn rows_complete(rows: Seq<SetRowView>, vars: Seq<Seq<char>>) -> bool {
    forall|i: int, j: int|
        0 <= i < rows.len() && 0 <= j < vars.len() ==> (#[trigger] rows[i]).binds.dom().contains(
            #[trigger] vars[j],
        )
}

/// The elements that a row binds, in the order of the variables.
pub open spec fn row_key(row: SetRowView, vars: Seq<Seq<char>>) -> Seq<Iid> {
    vars.map_values(|v: Seq<char>| row.binds[v])
}

/// What a `SET` does: its items, applied to the matched rows in the order of
/// the elements they bind.
pub open spec fn set_spec(
    items: Seq<SetItem>,
    rows: Seq<SetRowView>,
    vars: Seq<Seq<char>>,
    kinds: Map<Seq<char>, BindingKind>,
    paths: Seq<PathPattern>,
    visible: Visible,
    system: Instant,
) -> Result<EffectsView, ErrorView> {
    match set_unbound(items, kinds, 0) {
        Some(var) => Err(ErrorView::UnboundVariable(var)),
        None => if !rows_complete(rows, vars) {
            Err(ErrorView::Unsupported("SET match produced a null binding iid"@))
        } else {
            let keys = rows.map_values(|r: SetRowView| row_key(r, vars));
            match try_fold(
                sorted_places(keys, keys.len()),
                Map::<Iid, PendingView>::empty(),
                |m: PendingMap, i: int| set_row(m, rows[i], items, kinds, paths, visible),
            ) {
                Err(e) => Err(e),
                Ok(pending) => Ok(pending_effects(pending, system)),
            }
        },
    }
}

fn key_of(row: &SetRow, vars: &Vec<String>) -> (r: Option<Vec<Iid>>)
    requires
        row.binds.wf(),
    ensures
        match r {
            Some(k) => k@ == row_key(row@, views(vars@)) && forall|j: int|
                0 <= j < vars@.len() ==> row@.binds.dom().contains(#[trigger] views(vars@)[j]),
            None => exists|j: int|
                0 <= j < vars@.len() && !row@.binds.dom().contains(#[trigger] views(vars@)[j]),
        },
{
    let ghost names = views(vars@);
    let mut key: Vec<Iid> = Vec::new();
    let mut j: usize = 0;
    while j < vars.len()
        invariant
            j <= vars.len(),
            names == views(vars@),
            row.binds.wf(),
            key@.len() == j,
            forall|k: int|
                0 <= k < j ==> row@.binds.dom().contains(#[trigger] names[k]) && key@[k]
                    == row@.binds[names[k]],
        decreases vars.len() - j,
    {
        match row.binds.get(&vars[j]) {
            Some(iid) => {
                key.push(*iid);
            },
            None => {
                assert(!row@.binds.dom().contains(names[j as int]));
                return None;
            },
        }
        j += 1;
    }
    assert(key@ =~= row_key(row@, names));
    Some(key)
}

fn clone_cell(c: &Result<Value, String>) -> (r: Result<Value, String>)
    ensures
        cell_view(r) == cell_view(*c),
{
    match c {
        Ok(v) => Ok(v.clone_value()),
        Err(t) => Err(t.clone()),
    }
}

fn assign_row(
    pending: &mut SortedMap<Iid, PendingEntity>,
    row: &SetRow,
    items: &Vec<SetItem>,
    kinds: &Kinds,
    paths: &Vec<PathPattern>,
    visible: &Visible,
) -> (r: Result<(), EngineError>)
    requires
        pending_wf(*old(pending)),
        row.binds.wf(),
        row.cells@.len() == items@.len(),
        kinds.wf(),
        visible.wf(),
    ensures
        pending_wf(*final(pending)),
        ({
            let want = set_row(
                pending_view(*old(pending)),
                row@,
                items@,
                kinds@,
                paths@,
                *visible,
            );
            match r {
                Ok(()) => want == Ok::<PendingMap, ErrorView>(pending_view(*final(pending))),
                Err(e) => want == Err::<PendingMap, ErrorView>(e@),
            }
        }),
{
    let ghost start = pending_view(*pending);
    let ghost places = Seq::new(items@.len(), |i: int| i);
    let ghost step = |m: PendingMap, i: int|
        change_bound(
            m,
            set_item_var_spec(items@[i]),
            set_change(items@[i], i, row@),
            row@.binds,
            kinds@,
            paths@,
            *visible,
        );
    let mut i: usize = 0;
    proof {
        lemma_try_fold_all(places, start, step);
    }
    while i < items.len()
        invariant
            i <= items.len(),
            pending_wf(*pending),
            row.binds.wf(),
            row.cells@.len() == items@.len(),
            kinds.wf(),
            visible.wf(),
            start == pending_view(*old(pending)),
            places == Seq::new(items@.len(), |i: int| i),
            step == (|m: PendingMap, i: int|
                change_bound(
                    m,
                    set_item_var_spec(items@[i]),
                    set_change(items@[i], i, row@),
                    row@.binds,
                    kinds@,
                    paths@,
                    *visible,
                )),
            try_fold(places.subrange(0, i as int), start, step) == Ok::<PendingMap, ErrorView>(
                pending_view(*pending),
            ),
        decreases items.len() - i,
    {
        proof {
            lemma_try_fold_step(places, start, step, i as int);
            if try_fold(places.subrange(0, i + 1), start, step) is Err {
                lemma_try_fold_fails(places, start, step, i + 1);
            }
        }
        let change = match &items[i] {
            SetItem::Prop { prop, .. } => Change::SetProp {
                prop: prop.clone(),
                value: clone_cell(&row.cells[i]),
            },
            SetItem::Label { label, .. } => Change::AddLabel { label: label.clone() },
        };
        assert(change@ == set_change(items@[i as int], i as int, row@));
        match change_row(
            pending,
            set_item_var(&items[i]),
            change,
            &row.binds,
            kinds,
            paths,
            visible,
        ) {
            Ok(()) => {},
            Err(e) => {
                return Err(e);
            },
        }
        i += 1;
    }
    proof {
        lemma_try_fold_all(places, start, step);
    }
    Ok(())
}

/// Refuses the first item of a `SET` whose variable its `MATCH` does not bind.
pub fn check_set_items(items: &Vec<SetItem>, kinds: &Kinds) -> (r: Result<(), EngineError>)
    requires
        kinds.wf(),
    ensures
        match set_unbound(items@, kinds@, 0) {
            Some(var) => r matches Err(e) && e@ == ErrorView::UnboundVariable(var),
            None => r is Ok,
        },
{
    let mut k: usize = 0;
    while k < items.len()
        invariant
            k <= items.len(),
            kinds.wf(),
            set_unbound(items@, kinds@, 0) == set_unbound(items@, kinds@, k as int),
        decreases items.len() - k,
    {
        let var = set_item_var(&items[k]);
        if !kinds.contains_key(var) {
            return Err(EngineError::UnboundVariable(var.clone()));
        }
        k += 1;
    }
    Ok(())
}

/// Resolves a `SET`. `vars` and `kinds` are what its `MATCH` binds, `rows` what
/// it found, and `visible` the payloads of the elements concerned.
pub fn resolve_set(
    items: &Vec<SetItem>,
    rows: &Vec<SetRow>,
    vars: &Vec<String>,
    kinds: &Kinds,
    paths: &Vec<PathPattern>,
    visible: &Visible,
    system: Instant,
) -> (r: Result<Effects, EngineError>)
    requires
        set_rows_wf(rows@, items@.len() as int),
        kinds.wf(),
        visible.wf(),
    ensures
        ({
            let want = set_spec(
                items@,
                views(rows@),
                views(vars@),
                kinds@,
                paths@,
                *visible,
                system,
            );
            match r {
                Ok(eff) => eff.wf() && want == Ok::<EffectsView, ErrorView>(eff@),
                Err(e) => want == Err::<EffectsView, ErrorView>(e@),
            }
        }),
{
    match check_set_items(items, kinds) {
        Ok(()) => {},
        Err(e) => {
            return Err(e);
        },
    }
    let ghost all = views(rows@);
    let ghost names = views(vars@);
    let mut keys: Vec<Vec<Iid>> = Vec::new();
    let mut i: usize = 0;
    while i < rows.len()
        invariant
            i <= rows.len(),
            set_rows_wf(rows@, items@.len() as int),
            all == views(rows@),
            names == views(vars@),
            set_unbound(items@, kinds@, 0) is None,
            keys@.len() == i,
            forall|a: int| 0 <= a < i ==> (#[trigger] keys@[a])@ == row_key(all[a], names),
            forall|a: int, b: int|
                0 <= a < i && 0 <= b < names.len() ==> (#[trigger] all[a]).binds.dom().contains(
                    #[trigger] names[b],
                ),
        decreases rows.len() - i,
    {
        assert(all[i as int] == rows@[i as int]@);
        match key_of(&rows[i], vars) {
            Some(key) => {
                keys.push(key);
            },
            None => {
                assert(!rows_complete(all, names)) by {
                    let b = choose|j: int|
                        0 <= j < vars@.len() && !all[i as int].binds.dom().contains(
                            #[trigger] names[j],
                        );
                    assert(!all[i as int].binds.dom().contains(names[b]));
                }
                return Err(
                    EngineError::Unsupported("SET match produced a null binding iid".to_owned()),
                );
            },
        }
        i += 1;
    }
    let ghost ks = all.map_values(|r: SetRowView| row_key(r, names));
    assert(keys@.map_values(|k: Vec<Iid>| k@) =~= ks);
    let order = sort_places(&keys);
    let ghost places = sorted_places(ks, ks.len());
    assert(order@.map_values(|i: usize| i as int) == places);
    let ghost none = Map::<Iid, PendingView>::empty();
    let ghost step = |m: PendingMap, i: int| set_row(m, all[i], items@, kinds@, paths@, *visible);
    let mut pending: SortedMap<Iid, PendingEntity> = SortedMap::new();
    let mut p: usize = 0;
    proof {
        assert(pending_view(pending) =~= none);
        lemma_try_fold_all(places, none, step);
        assert(rows_complete(all, names));
    }
    while p < order.len()
        invariant
            p <= order.len(),
            order@.len() == rows@.len(),
            order@.map_values(|i: usize| i as int) == places,
            forall|i: int| 0 <= i < order@.len() ==> (#[trigger] order@[i]) < rows@.len(),
            set_rows_wf(rows@, items@.len() as int),
            kinds.wf(),
            visible.wf(),
            pending_wf(pending),
            all == views(rows@),
            names == views(vars@),
            rows_complete(all, names),
            set_unbound(items@, kinds@, 0) is None,
            ks == all.map_values(|r: SetRowView| row_key(r, names)),
            places == sorted_places(ks, ks.len()),
            none == Map::<Iid, PendingView>::empty(),
            step == (|m: PendingMap, i: int|
                set_row(m, all[i], items@, kinds@, paths@, *visible)),
            try_fold(places.subrange(0, p as int), none, step) == Ok::<PendingMap, ErrorView>(
                pending_view(pending),
            ),
        decreases order.len() - p,
    {
        proof {
            lemma_try_fold_step(places, none, step, p as int);
            if try_fold(places.subrange(0, p + 1), none, step) is Err {
                lemma_try_fold_fails(places, none, step, p + 1);
            }
            assert(places[p as int] == order@[p as int] as int);
            assert(all[order@[p as int] as int] == rows@[order@[p as int] as int]@);
        }
        match assign_row(&mut pending, &rows[order[p]], items, kinds, paths, visible) {
            Ok(()) => {},
            Err(e) => {
                return Err(e);
            },
        }
        p += 1;
    }
    proof {
        lemma_try_fold_all(places, none, step);
    }
    Ok(push_pending_effects(&pending, system))
}

/// The row binds the item's variable to the element.
pub open spec fn set_hits(item: SetItem, row: SetRowView, x: Iid) -> bool {
    match item {
        SetItem::Prop { var, .. } => row.binds.dom().contains(var@) && row.binds[var@] == x,
        SetItem::Label { var, .. } => row.binds.dom().contains(var@) && row.binds[var@] == x,
    }
}

/// The element has what the item gives it: the label, or the property with a
/// value that some row has for it.
pub open spec fn set_holds(
    items: Seq<SetItem>,
    rows: Seq<SetRowView>,
    item: SetItem,
    x: Iid,
    e: PendingView,
) -> bool {
    match item {
        SetItem::Label { label, .. } => e.labels.contains(label@),
        SetItem::Prop { prop, .. } => e.doc.dom().contains(prop@) && exists|b: int, j: int|
            0 <= b < rows.len() && 0 <= j < items.len() && #[trigger] set_hits(
                items[j],
                rows[b],
                x,
            ) && (items[j] matches SetItem::Prop { prop: p, .. } && p@ == prop@)
                && rows[b].cells[j] == Ok::<ValueView, Seq<char>>(e.doc[prop@]),
    }
}

proof fn lemma_set_step(
    m: PendingMap,
    items: Seq<SetItem>,
    rows: Seq<SetRowView>,
    b: int,
    j: int,
    kinds: Map<Seq<char>, BindingKind>,
    paths: Seq<PathPattern>,
    visible: Visible,
    x: Iid,
    item: SetItem,
)
    requires
        0 <= b < rows.len(),
        0 <= j < items.len(),
        change_bound(
            m,
            set_item_var_spec(items[j]),
            set_change(items[j], j, rows[b]),
            rows[b].binds,
            kinds,
            paths,
            visible,
        ) is Ok,
    ensures
        ({
            let w = change_bound(
                m,
                set_item_var_spec(items[j]),
                set_change(items[j], j, rows[b]),
                rows[b].binds,
                kinds,
                paths,
                visible,
            )->Ok_0;
            &&& (m.dom().contains(x) ==> w.dom().contains(x))
            &&& (m.dom().contains(x) && set_holds(items, rows, item, x, m[x]) ==> set_holds(
                items,
                rows,
                item,
                x,
                w[x],
            ))
            &&& (set_hits(items[j], rows[b], x) && visible.lookup(
                kinds[set_item_var_spec(items[j])],
                x,
            ) is Some ==> w.dom().contains(x) && set_holds(items, rows, items[j], x, w[x]))
            &&& (m.dom().finite() ==> w.dom().finite())
            &&& (w.dom().contains(x) && (m.dom().contains(x) ==> visible.lookup(m[x].kind, x)
                == Some(m[x].original)) ==> visible.lookup(w[x].kind, x) == Some(w[x].original))
        }),
{
    let var = set_item_var_spec(items[j]);
    let c = set_change(items[j], j, rows[b]);
    law_rows_change_what_they_bind(m, var, c, rows[b].binds, kinds, paths, visible);
    let w = change_bound(m, var, c, rows[b].binds, kinds, paths, visible)->Ok_0;
    if rows[b].binds.dom().contains(var) && rows[b].binds[var] == x {
        assert(set_hits(items[j], rows[b], x));
        if m.dom().contains(x) {
            law_changes_do_what_they_say(m[x], c);
            if c is AddLabel && item is Label {
                let l = item->label@;
                if m[x].labels.contains(l) {
                    let k = m[x].labels.index_of(l);
                    assert(w[x].labels.subrange(0, m[x].labels.len() as int)[k] == w[x].labels[k]);
                }
            }
        } else if visible.lookup(kinds[var], x) is Some {
            let p = visible.lookup(kinds[var], x)->0;
            law_changes_do_what_they_say(
                PendingView {
                    kind: kinds[var],
                    original: p,
                    labels: p.labels,
                    doc: p.doc,
                    src: w[x].src,
                    dst: w[x].dst,
                },
                c,
            );
        }
    }
}

proof fn lemma_set_row(
    m: PendingMap,
    items: Seq<SetItem>,
    rows: Seq<SetRowView>,
    b: int,
    n: int,
    kinds: Map<Seq<char>, BindingKind>,
    paths: Seq<PathPattern>,
    visible: Visible,
    x: Iid,
    at: int,
)
    requires
        0 <= b < rows.len(),
        0 <= n <= items.len(),
        0 <= at < items.len(),
        try_fold(
            Seq::new(n as nat, |i: int| i),
            m,
            |m: PendingMap, i: int|
                change_bound(
                    m,
                    set_item_var_spec(items[i]),
                    set_change(items[i], i, rows[b]),
                    rows[b].binds,
                    kinds,
                    paths,
                    visible,
                ),
        ) is Ok,
    ensures
        ({
            let w = try_fold(
                Seq::new(n as nat, |i: int| i),
                m,
                |m: PendingMap, i: int|
                    change_bound(
                        m,
                        set_item_var_spec(items[i]),
                        set_change(items[i], i, rows[b]),
                        rows[b].binds,
                        kinds,
                        paths,
                        visible,
                    ),
            )->Ok_0;
            &&& (m.dom().contains(x) ==> w.dom().contains(x))
            &&& (m.dom().contains(x) && set_holds(items, rows, items[at], x, m[x]) ==> set_holds(
                items,
                rows,
                items[at],
                x,
                w[x],
            ))
            &&& (at < n && set_hits(items[at], rows[b], x) && visible.lookup(
                kinds[set_item_var_spec(items[at])],
                x,
            ) is Some ==> w.dom().contains(x) && set_holds(items, rows, items[at], x, w[x]))
            &&& (m.dom().finite() ==> w.dom().finite())
            &&& (w.dom().contains(x) && (m.dom().contains(x) ==> visible.lookup(m[x].kind, x)
                == Some(m[x].original)) ==> visible.lookup(w[x].kind, x) == Some(w[x].original))
        }),
    decreases n,
{
    let step = |m: PendingMap, i: int|
        change_bound(
            m,
            set_item_var_spec(items[i]),
            set_change(items[i], i, rows[b]),
            rows[b].binds,
            kinds,
            paths,
            visible,
        );
    if n > 0 {
        let all = Seq::new(n as nat, |i: int| i);
        let front = Seq::new((n - 1) as nat, |i: int| i);
        assert(all.drop_last() =~= front);
        lemma_set_row(m, items, rows, b, n - 1, kinds, paths, visible, x, at);
        let v = try_fold(front, m, step)->Ok_0;
        lemma_set_step(v, items, rows, b, n - 1, kinds, paths, visible, x, items[at]);
    }
}

proof fn lemma_set_rows(
    order: Seq<int>,
    items: Seq<SetItem>,
    rows: Seq<SetRowView>,
    kinds: Map<Seq<char>, BindingKind>,
    paths: Seq<PathPattern>,
    visible: Visible,
    x: Iid,
    at: int,
    row: int,
)
    requires
        forall|k: int| 0 <= k < order.len() ==> 0 <= #[trigger] order[k] < rows.len(),
        0 <= at < items.len(),
        try_fold(
            order,
            Map::<Iid, PendingView>::empty(),
            |m: PendingMap, i: int| set_row(m, rows[i], items, kinds, paths, visible),
        ) is Ok,
    ensures
        ({
            let w = try_fold(
                order,
                Map::<Iid, PendingView>::empty(),
                |m: PendingMap, i: int| set_row(m, rows[i], items, kinds, paths, visible),
            )->Ok_0;
            &&& w.dom().finite()
            &&& (w.dom().contains(x) ==> visible.lookup(w[x].kind, x) == Some(w[x].original))
            &&& (order.contains(row) && set_hits(items[at], rows[row], x) && visible.lookup(
                kinds[set_item_var_spec(items[at])],
                x,
            ) is Some ==> w.dom().contains(x) && set_holds(items, rows, items[at], x, w[x]))
        }),
    decreases order.len(),
{
    if order.len() > 0 {
        let front = order.drop_last();
        let last = order.last();
        assert forall|k: int| 0 <= k < front.len() implies 0 <= #[trigger] front[k]
            < rows.len() by {
            assert(front[k] == order[k]);
        }
        lemma_set_rows(front, items, rows, kinds, paths, visible, x, at, row);
        let v = try_fold(
            front,
            Map::<Iid, PendingView>::empty(),
            |m: PendingMap, i: int| set_row(m, rows[i], items, kinds, paths, visible),
        )->Ok_0;
        assert(0 <= order[order.len() - 1] < rows.len());
        lemma_set_row(
            v,
            items,
            rows,
            last,
            items.len() as int,
            kinds,
            paths,
            visible,
            x,
            at,
        );
        if order.contains(row) && row != last {
            let k = order.index_of(row);
            assert(front[k] == row);
        }
    }
}

proof fn lemma_all_places(order: Seq<int>, n: nat, i: int)
    requires
        order.len() == n,
        order.no_duplicates(),
        forall|k: int| 0 <= k < n ==> 0 <= #[trigger] order[k] < n,
        0 <= i < n,
    ensures
        order.contains(i),
{
    let range = vstd::set_lib::set_int_range(0, n as int);
    vstd::set_lib::lemma_int_range(0, n as int);
    order.unique_seq_to_set();
    let places = order.to_set();
    assert forall|p: int| places.contains(p) implies range.contains(p) by {
        let k = order.index_of(p);
        assert(order[k] == p);
    }
    vstd::set_lib::lemma_subset_equality(places, range);
    assert(range.contains(i));
    assert(places.contains(i));
}

/// What a `SET` gives is given to every visible element that some row binds to
/// the item's variable: the label, or the property, with a value that a row has
/// for that element and property. Where the element did not have the label, or
/// no property of that name, it is written anew.
pub proof fn law_set_parts_are_there(
    items: Seq<SetItem>,
    rows: Seq<SetRowView>,
    vars: Seq<Seq<char>>,
    kinds: Map<Seq<char>, BindingKind>,
    paths: Seq<PathPattern>,
    visible: Visible,
    system: Instant,
    at: int,
    row: int,
    x: Iid,
)
    requires
        set_spec(items, rows, vars, kinds, paths, visible, system) is Ok,
        0 <= at < items.len(),
        0 <= row < rows.len(),
        set_hits(items[at], rows[row], x),
        visible.lookup(kinds[set_item_var_spec(items[at])], x) is Some,
    ensures
        ({
            let eff = set_spec(items, rows, vars, kinds, paths, visible, system)->Ok_0;
            exists|e: PendingView|
                {
                    &&& #[trigger] set_holds(items, rows, items[at], x, e)
                    &&& visible.lookup(e.kind, x) == Some(e.original)
                    &&& (differs(e) && e.kind is Node ==> exists|k: int|
                        0 <= k < eff.nodes.len() && writes(
                            #[trigger] eff.nodes[k],
                            x,
                            e,
                            system,
                        ))
                    &&& (differs(e) && e.kind is Edge ==> exists|k: int|
                        0 <= k < eff.edges.len() && writes(
                            #[trigger] eff.edges[k],
                            x,
                            e,
                            system,
                        ))
                }
        }),
{
    let keys = rows.map_values(|r: SetRowView| row_key(r, vars));
    let order = sorted_places(keys, keys.len());
    let pending = try_fold(
        order,
        Map::<Iid, PendingView>::empty(),
        |m: PendingMap, i: int| set_row(m, rows[i], items, kinds, paths, visible),
    )->Ok_0;
    lemma_sorted_places(keys, keys.len());
    lemma_all_places(order, keys.len(), row);
    lemma_set_rows(order, items, rows, kinds, paths, visible, x, at, row);
    law_changed_elements_are_written(pending, system);
    let e = pending[x];
    let eff = set_spec(items, rows, vars, kinds, paths, visible, system)->Ok_0;
    assert(eff == pending_effects(pending, system));
    assert(pending.dom().contains(x));
    assert(set_holds(items, rows, items[at], x, e));
    if differs(e) && e.kind is Node {
        assert(exists|k: int|
            0 <= k < eff.nodes.len() && writes(#[trigger] eff.nodes[k], x, e, system));
    }
    if differs(e) && e.kind is Edge {
        assert(exists|k: int|
            0 <= k < eff.edges.len() && writes(#[trigger] eff.edges[k], x, e, system));
    }
}

/// A cell that holds a value of a property gives just that value; any other
/// gives a failure.
pub proof fn law_cells_give_what_they_hold(col: Seq<char>, cell: Cell)
    ensures
        cell is Int ==> cell_value(col, cell) == Ok::<ValueView, Seq<char>>(
            ValueView::Int(cell->Int_0 as int),
        ),
        cell is Float ==> cell_value(col, cell) == Ok::<ValueView, Seq<char>>(
            ValueView::Float(cell->Float_0),
        ),
        cell is Str ==> cell_value(col, cell) == Ok::<ValueView, Seq<char>>(
            ValueView::Str(cell->Str_0@),
        ),
        cell is Bool ==> cell_value(col, cell) == Ok::<ValueView, Seq<char>>(
            ValueView::Bool(cell->Bool_0),
        ),
        cell is Bytes ==> cell_value(col, cell) == Ok::<ValueView, Seq<char>>(
            ValueView::Bytes(cell->Bytes_0@),
        ),
        cell is Null ==> cell_value(col, cell) == Ok::<ValueView, Seq<char>>(ValueView::Null),
        cell is Missing || cell is Mismatched || cell is Other ==> cell_value(col, cell) is Err,
{
}

/// The value of a row is read from the first column of the name; where there is
/// none, reading fails.
pub proof fn law_the_first_column_counts(
    columns: Seq<Seq<char>>,
    cells: Seq<Cell>,
    col: Seq<char>,
    i: int,
)
    requires
        columns.len() == cells.len(),
        0 <= i <= columns.len(),
        forall|k: int| 0 <= k < i ==> #[trigger] columns[k] != col,
        i < columns.len() ==> columns[i] == col,
    ensures
        i < columns.len() ==> column_value(columns, cells, col) == cell_value(col, cells[i]),
        i == columns.len() ==> column_value(columns, cells, col) is Err,
    decreases columns.len(),
{
    if columns.len() > 0 && i > 0 {
        assert(columns[0] != col);
        let rest = columns.skip(1);
        assert forall|k: int| 0 <= k < i - 1 implies #[trigger] rest[k] != col by {
            assert(rest[k] == columns[k + 1]);
        }
        law_the_first_column_counts(rest, cells.skip(1), col, i - 1);
    }
}

/// Just the items that write a property have a value, each at its own place.
pub proof fn law_properties_have_values(items: Seq<SetItem>)
    ensures
        forall|i: int|
            valued_items(items).contains(i) <==> 0 <= i < items.len() && items[i] is Prop,
        forall|a: int, b: int|
            0 <= a < b < valued_items(items).len() ==> valued_items(items)[a] < valued_items(
                items,
            )[b],
    decreases items.len(),
{
    if items.len() > 0 {
        let front = items.drop_last();
        let before = valued_items(front);
        let all = valued_items(items);
        law_properties_have_values(front);
        assert forall|i: int|
            all.contains(i) <==> 0 <= i < items.len() && items[i] is Prop by {
            if 0 <= i < front.len() {
                assert(front[i] == items[i]);
            }
            if before.contains(i) {
                assert(all[before.index_of(i)] == i);
            }
            if all.contains(i) && all.index_of(i) < before.len() {
                assert(before[all.index_of(i)] == i);
            }
            if i == items.len() - 1 && items[i] is Prop {
                assert(all[all.len() - 1] == i);
            }
        }
        assert forall|a: int, b: int| 0 <= a < b < all.len() implies all[a] < all[b] by {
            if b == before.len() {
                assert(before.contains(before[a]));
            }
        }
    }
}

} // verus!
