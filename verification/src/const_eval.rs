//! Constant expressions.

use crate::ast::{Expr, Literal};
use crate::doc::{Doc, DocView};
use crate::error::{EngineError, ErrorView, PlanError, PlanErrorView};
use crate::sorted::SortedMap;
use crate::types::{Value, ValueView};
use vstd::prelude::*;

verus! {

/// What a literal stands for.
pub open spec fn literal_view(l: Literal) -> ValueView {
    match l {
        Literal::Int(i) => ValueView::Int(i as int),
        Literal::Float(f) => ValueView::Float(f),
        Literal::Str(s) => ValueView::Str(s@),
        Literal::Bool(b) => ValueView::Bool(b),
        Literal::Null => ValueView::Null,
    }
}

/// The bits of a floating-point number with its sign turned.
pub open spec fn negated_bits(bits: u64) -> u64 {
    if bits < 0x8000_0000_0000_0000 {
        (bits + 0x8000_0000_0000_0000) as u64
    } else {
        (bits - 0x8000_0000_0000_0000) as u64
    }
}

/// The expression does not negate the one integer whose negation has no place
/// among 64-bit integers.
pub open spec fn negatable(e: Expr) -> bool {
    e matches Expr::Neg(inner) ==> !(*inner matches Expr::Literal(Literal::Int(i)) && i == i64::MIN)
}

/// The value of a constant expression: a literal, a parameter, or a negated
/// numeric literal.
pub open spec fn const_spec(e: Expr, params: Map<Seq<char>, ValueView>) -> Result<
    ValueView,
    ErrorView,
> {
    match e {
        Expr::Literal(l) => Ok(literal_view(l)),
        Expr::Param(name) => if params.dom().contains(name@) {
            Ok(params[name@])
        } else {
            Err(ErrorView::Plan(PlanErrorView::MissingParam(name@)))
        },
        Expr::Neg(inner) => match *inner {
            Expr::Literal(Literal::Int(i)) => Ok(ValueView::Int(-i)),
            Expr::Literal(Literal::Float(f)) => Ok(ValueView::Float(negated_bits(f))),
            _ => Err(
                ErrorView::Unsupported("unary negative requires numeric constant expression"@),
            ),
        },
        _ => Err(
            ErrorView::Unsupported(
                "constant expressions support only literal, parameter, or unary negative numeric literal"@,
            ),
        ),
    }
}

/// Query parameters: values by name.
pub struct Params {
    pub values: SortedMap<String, Value>,
}

impl Params {
    pub open spec fn wf(&self) -> bool {
        self.values.wf()
    }

    pub fn new() -> (r: Params)
        ensures
            r.wf(),
            r@ == Map::<Seq<char>, ValueView>::empty(),
    {
        let r = Params { values: SortedMap::new() };
        assert(r@ =~= Map::<Seq<char>, ValueView>::empty());
        r
    }

    pub fn set(&mut self, name: String, value: Value)
        requires
            old(self).wf(),
        ensures
            final(self).wf(),
            final(self)@ == old(self)@.insert(name@, value@),
    {
        let ghost before = self.values@;
        self.values.insert(name, value);
        assert(self@ =~= before.map_values(|v: Value| v@).insert(name@, value@));
    }
}

impl View for Params {
    type V = Map<Seq<char>, ValueView>;

    open spec fn view(&self) -> Map<Seq<char>, ValueView> {
        self.values@.map_values(|v: Value| v@)
    }
}

/// The value of a constant expression.
pub fn const_value(expr: &Expr, params: &Params) -> (r: Result<Value, EngineError>)
    requires
        params.wf(),
        negatable(*expr),
    ensures
        match r {
            Ok(v) => const_spec(*expr, params@) == Ok::<ValueView, ErrorView>(v@),
            Err(e) => const_spec(*expr, params@) == Err::<ValueView, ErrorView>(e@),
        },
{
    match expr {
        Expr::Literal(l) => Ok(literal_to_value(l)),
        Expr::Param(name) => match params.values.get(name) {
            Some(v) => Ok(v.clone_value()),
            None => Err(EngineError::Plan(PlanError::MissingParam(name.clone()))),
        },
        Expr::Neg(inner) => match &**inner {
            Expr::Literal(Literal::Int(i)) => Ok(Value::Int(-*i)),
            Expr::Literal(Literal::Float(f)) => {
                let half: u64 = 0x8000_0000_0000_0000;
                let bits: u64 = if *f < half {
                    *f + half
                } else {
                    *f - half
                };
                Ok(Value::Float(bits))
            },
            _ => Err(
                EngineError::Unsupported(
                    "unary negative requires numeric constant expression".to_owned(),
                ),
            ),
        },
        _ => Err(
            EngineError::Unsupported(
                "constant expressions support only literal, parameter, or unary negative numeric literal".to_owned(),
            ),
        ),
    }
}

/// The value a literal stands for.
pub fn literal_to_value(l: &Literal) -> (r: Value)
    ensures
        r@ == literal_view(*l),
{
    match l {
        Literal::Int(i) => Value::Int(*i),
        Literal::Float(f) => Value::Float(*f),
        Literal::Str(s) => Value::Str(s.clone()),
        Literal::Bool(b) => Value::Bool(*b),
        Literal::Null => Value::Null,
    }
}

/// Every property expression can be evaluated without overflow.
pub open spec fn props_negatable(props: Seq<(String, Expr)>) -> bool {
    forall|i: int| 0 <= i < props.len() ==> negatable((#[trigger] props[i]).1)
}

/// The document that a list of property expressions spells: the first failing
/// expression fails it, and a later entry of a name replaces an earlier one.
pub open spec fn props_doc(
    props: Seq<(String, Expr)>,
    params: Map<Seq<char>, ValueView>,
) -> Result<DocView, ErrorView>
    decreases props.len(),
{
    if props.len() == 0 {
        Ok(Map::empty())
    } else {
        match props_doc(props.drop_last(), params) {
            Err(e) => Err(e),
            Ok(doc) => match const_spec(props.last().1, params) {
                Err(e) => Err(e),
                Ok(v) => Ok(doc.insert(props.last().0@, v)),
            },
        }
    }
}

proof fn lemma_props_doc_prefix_fails(
    props: Seq<(String, Expr)>,
    params: Map<Seq<char>, ValueView>,
    n: int,
)
    requires
        0 <= n <= props.len(),
        props_doc(props.subrange(0, n), params) is Err,
    ensures
        props_doc(props, params) == props_doc(props.subrange(0, n), params),
    decreases props.len(),
{
    if n == props.len() {
        assert(props.subrange(0, n) =~= props);
    } else {
        let shorter = props.drop_last();
        assert(shorter.subrange(0, n) =~= props.subrange(0, n));
        lemma_props_doc_prefix_fails(shorter, params, n);
    }
}

/// The document that property expressions spell.
pub fn const_doc(props: &Vec<(String, Expr)>, params: &Params) -> (r: Result<Doc, EngineError>)
    requires
        params.wf(),
        props_negatable(props@),
    ensures
        match r {
            Ok(doc) => doc.wf() && props_doc(props@, params@) == Ok::<DocView, ErrorView>(doc@),
            Err(e) => props_doc(props@, params@) == Err::<DocView, ErrorView>(e@),
        },
{
    let mut doc = Doc::new();
    let mut i: usize = 0;
    assert(props@.subrange(0, 0) =~= Seq::empty());
    while i < props.len()
        invariant
            i <= props.len(),
            params.wf(),
            props_negatable(props@),
            doc.wf(),
            props_doc(props@.subrange(0, i as int), params@) == Ok::<DocView, ErrorView>(doc@),
        decreases props.len() - i,
    {
        let ghost next = props@.subrange(0, i + 1);
        assert(next.drop_last() =~= props@.subrange(0, i as int));
        assert(next.last() == props@[i as int]);
        match const_value(&props[i].1, params) {
            Ok(v) => {
                doc.insert(props[i].0.clone(), v);
            },
            Err(e) => {
                proof {
                    lemma_props_doc_prefix_fails(props@, params@, i + 1);
                }
                return Err(e);
            },
        }
        i += 1;
    }
    assert(props@.subrange(0, i as int) =~= props@);
    Ok(doc)
}

} // verus!
