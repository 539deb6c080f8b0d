//! Folding with a step that may stop early.
use core::marker::PhantomData;
use core::ops::ControlFlow;
use vstd::prelude::*;

use super::Aggregator;

verus! {

// The spec functions of the aggregation traits below stand for nothing
// until an implementation states them: one that is verified gives each its
// meaning, and the `ensures` of the exec functions then hold it to them.

/// Folds elements with a step that may stop early; the caller receives the
/// last signal itself.
pub struct TryFold<I> {
    marker: PhantomData<I>,
}

/// A fallible or early-returning folding aggregation.
pub trait TryFoldAggregator {
    /// The element decoded from the sequence.
    type Item;
    /// The accumulator type.
    type Acc;
    /// The early return type.
    type Break;

    /// The first accumulator.
    closed spec fn spec_init() -> Self::Acc {
        arbitrary()
    }

    /// The step: go on with a new accumulator, or stop with a payload.
    closed spec fn spec_f(acc: Self::Acc, item: Self::Item) -> ControlFlow<Self::Break, Self::Acc> {
        arbitrary()
    }

    /// Initial value of the accumulator.
    fn init() -> (r: Self::Acc)
        ensures
            r == Self::spec_init(),
    ;

    /// Core folding function.
    fn f(acc: Self::Acc, item: Self::Item) -> (r: ControlFlow<Self::Break, Self::Acc>)
        ensures
            r == Self::spec_f(acc, item),
    ;
}

impl<I: TryFoldAggregator> Aggregator for TryFold<I> {
    type Acc = I::Acc;

    type Item = I::Item;

    type Break = I::Break;

    type Value = ControlFlow<I::Break, I::Acc>;

    open spec fn spec_init() -> I::Acc {
        I::spec_init()
    }

    open spec fn spec_try_fold(acc: I::Acc, item: I::Item) -> ControlFlow<I::Break, I::Acc> {
        I::spec_f(acc, item)
    }

    open spec fn spec_finalize(x: ControlFlow<I::Break, I::Acc>) -> ControlFlow<I::Break, I::Acc> {
        x
    }

    open spec fn spec_accepts(x: ControlFlow<I::Break, I::Acc>) -> bool {
        true
    }

    fn init() -> (r: I::Acc) {
        I::init()
    }

    fn try_fold(acc: I::Acc, item: I::Item) -> (r: ControlFlow<I::Break, I::Acc>) {
        I::f(acc, item)
    }

    fn finalize(x: ControlFlow<I::Break, I::Acc>) -> (r: ControlFlow<I::Break, I::Acc>) {
        x
    }
}

} // verus!
