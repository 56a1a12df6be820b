//! Left folds that stop at the first failure.

use vstd::prelude::*;

verus! {

/// Folds `items` from the left; the first failing step fails the whole.
pub open spec fn try_fold<A, S, E>(
    items: Seq<A>,
    init: S,
    step: spec_fn(S, A) -> Result<S, E>,
) -> Result<S, E>
    decreases items.len(),
{
    if items.len() == 0 {
        Ok(init)
    } else {
        match try_fold(items.drop_last(), init, step) {
            Err(e) => Err(e),
            Ok(s) => step(s, items.last()),
        }
    }
}

/// One more item is one more step.
pub proof fn lemma_try_fold_step<A, S, E>(
    items: Seq<A>,
    init: S,
    step: spec_fn(S, A) -> Result<S, E>,
    i: int,
)
    requires
        0 <= i < items.len(),
    ensures
        try_fold(items.subrange(0, i + 1), init, step) == (match try_fold(
            items.subrange(0, i),
            init,
            step,
        ) {
            Err(e) => Err(e),
            Ok(s) => step(s, items[i]),
        }),
{
    let longer = items.subrange(0, i + 1);
    assert(longer.drop_last() =~= items.subrange(0, i));
    assert(longer.last() == items[i]);
}

/// A failing prefix fails the whole in the same way.
pub proof fn lemma_try_fold_fails<A, S, E>(
    items: Seq<A>,
    init: S,
    step: spec_fn(S, A) -> Result<S, E>,
    n: int,
)
    requires
        0 <= n <= items.len(),
        try_fold(items.subrange(0, n), init, step) is Err,
    ensures
        try_fold(items, init, step) == try_fold(items.subrange(0, n), init, step),
    decreases items.len(),
{
    if n == items.len() {
        assert(items.subrange(0, n) =~= items);
    } else {
        let shorter = items.drop_last();
        assert(shorter.subrange(0, n) =~= items.subrange(0, n));
        lemma_try_fold_fails(shorter, init, step, n);
    }
}

/// Where no step failed, the whole is the fold of all items.
pub proof fn lemma_try_fold_all<A, S, E>(
    items: Seq<A>,
    init: S,
    step: spec_fn(S, A) -> Result<S, E>,
)
    ensures
        try_fold(items.subrange(0, items.len() as int), init, step) == try_fold(items, init, step),
        try_fold(items.subrange(0, 0), init, step) == Ok::<S, E>(init),
{
    assert(items.subrange(0, items.len() as int) =~= items);
    assert(items.subrange(0, 0) =~= Seq::empty());
}

/// Folds `items` from the left.
pub open spec fn fold<A, S>(items: Seq<A>, init: S, step: spec_fn(S, A) -> S) -> S
    decreases items.len(),
{
    if items.len() == 0 {
        init
    } else {
        step(fold(items.drop_last(), init, step), items.last())
    }
}

/// One more item is one more step.
pub proof fn lemma_fold_step<A, S>(items: Seq<A>, init: S, step: spec_fn(S, A) -> S, i: int)
    requires
        0 <= i < items.len(),
    ensures
        fold(items.subrange(0, i + 1), init, step) == step(
            fold(items.subrange(0, i), init, step),
            items[i],
        ),
{
    let longer = items.subrange(0, i + 1);
    assert(longer.drop_last() =~= items.subrange(0, i));
    assert(longer.last() == items[i]);
}

/// The fold of all items.
pub proof fn lemma_fold_all<A, S>(items: Seq<A>, init: S, step: spec_fn(S, A) -> S)
    ensures
        fold(items.subrange(0, items.len() as int), init, step) == fold(items, init, step),
        fold(items.subrange(0, 0), init, step) == init,
{
    assert(items.subrange(0, items.len() as int) =~= items);
    assert(items.subrange(0, 0) =~= Seq::empty());
}

} // verus!
