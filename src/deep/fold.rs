//! Folding every element into an accumulator.
use core::convert::Infallible;
use core::marker::PhantomData;
use core::ops::ControlFlow;
use vstd::prelude::*;

use super::Aggregator;

verus! {

// The spec functions of the aggregation traits below stand for nothing
// until an implementation states them: one that is verified gives each its
// meaning, and the `ensures` of the exec functions then hold it to them.

/// Folds every element into the accumulator; never stops early.
pub struct Fold<I> {
    marker: PhantomData<I>,
}

/// A folding aggregation: a first accumulator and a combining step.
pub trait FoldAggregator {
    /// The element decoded from the sequence.
    type Item;
    /// The accumulator type.
    type Acc;

    /// The first accumulator.
    closed spec fn spec_init() -> Self::Acc {
        arbitrary()
    }

    /// The combining step.
    closed spec fn spec_f(acc: Self::Acc, item: Self::Item) -> Self::Acc {
        arbitrary()
    }

    /// Initial value of the accumulator.
    fn init() -> (r: Self::Acc)
        ensures
            r == Self::spec_init(),
    ;

    /// Core folding function.
    fn f(acc: Self::Acc, item: Self::Item) -> (r: Self::Acc)
        ensures
            r == Self::spec_f(acc, item),
    ;
}

impl<I: FoldAggregator> Aggregator for Fold<I> {
    type Acc = I::Acc;

    type Item = I::Item;

    type Break = Infallible;

    type Value = I::Acc;

    open spec fn spec_init() -> I::Acc {
        I::spec_init()
    }

    open spec fn spec_try_fold(acc: I::Acc, item: I::Item) -> ControlFlow<Infallible, I::Acc> {
        ControlFlow::Continue(I::spec_f(acc, item))
    }

    open spec fn spec_finalize(x: ControlFlow<Infallible, I::Acc>) -> I::Acc {
        match x {
            ControlFlow::Continue(acc) => acc,
            ControlFlow::Break(_) => arbitrary(),
        }
    }

    open spec fn spec_accepts(x: ControlFlow<Infallible, I::Acc>) -> bool {
        x is Continue
    }

    fn init() -> (r: I::Acc) {
        I::init()
    }

    fn try_fold(acc: I::Acc, item: I::Item) -> (r: ControlFlow<Infallible, I::Acc>) {
        ControlFlow::Continue(I::f(acc, item))
    }

    fn finalize(x: ControlFlow<Infallible, I::Acc>) -> (r: I::Acc) {
        match x {
            ControlFlow::Continue(acc) => acc,
            ControlFlow::Break(_) => unreached(),
        }
    }
}

/// The accumulator after the given elements: `f` applied to them left to
/// right, from the first accumulator.
pub open spec fn spec_fold<I: FoldAggregator>(items: Seq<I::Item>) -> I::Acc {
    items.fold_left(I::spec_init(), |acc: I::Acc, item: I::Item| I::spec_f(acc, item))
}

/// A fold keeps the order of the sequence: after each prefix of the elements
/// the reduction holds `f` applied to that prefix left to right from the
/// first accumulator, and the caller receives the accumulator after all of
/// them.
pub proof fn lemma_fold_in_order<I: FoldAggregator>(items: Seq<I::Item>)
    ensures
        forall|k: int|
            0 <= k <= items.len() ==> #[trigger] super::spec_signal::<Fold<I>>(items.take(k))
                == ControlFlow::<Infallible, I::Acc>::Continue(spec_fold::<I>(items.take(k))),
        super::spec_reduce::<Fold<I>>(items) == spec_fold::<I>(items),
{
    assert forall|k: int| 0 <= k <= items.len() implies #[trigger] super::spec_signal::<Fold<I>>(
        items.take(k),
    ) == ControlFlow::<Infallible, I::Acc>::Continue(spec_fold::<I>(items.take(k))) by {
        lemma_fold_signal::<I>(items.take(k));
    }
    lemma_fold_signal::<I>(items);
}

proof fn lemma_fold_signal<I: FoldAggregator>(items: Seq<I::Item>)
    ensures
        super::spec_signal::<Fold<I>>(items) == ControlFlow::<Infallible, I::Acc>::Continue(
            spec_fold::<I>(items),
        ),
    decreases items.len(),
{
    if items.len() > 0 {
        lemma_fold_signal::<I>(items.drop_last());
    }
}

} // verus!
