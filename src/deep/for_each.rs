//! Applying a function to every element.
use core::convert::Infallible;
use core::marker::PhantomData;
use core::ops::ControlFlow;
use vstd::prelude::*;

use super::Aggregator;

verus! {

/// Applies a function to every element; never stops early.
pub struct ForEach<I> {
    marker: PhantomData<I>,
}

/// A function applied to each element for its effect.
pub trait ForEachAggregator {
    /// The element decoded from the sequence.
    type Item;

    /// Core function.
    fn f(item: Self::Item);
}

impl<I: ForEachAggregator> Aggregator for ForEach<I> {
    type Acc = ();

    type Item = I::Item;

    type Break = Infallible;

    type Value = ();

    open spec fn spec_init() -> () {
        ()
    }

    open spec fn spec_try_fold(acc: (), item: I::Item) -> ControlFlow<Infallible, ()> {
        ControlFlow::Continue(())
    }

    open spec fn spec_finalize(x: ControlFlow<Infallible, ()>) -> () {
        ()
    }

    open spec fn spec_accepts(x: ControlFlow<Infallible, ()>) -> bool {
        x is Continue
    }

    fn init() -> (r: ()) {
        ()
    }

    fn try_fold(acc: (), item: I::Item) -> (r: ControlFlow<Infallible, ()>) {
        I::f(item);
        ControlFlow::Continue(())
    }

    fn finalize(x: ControlFlow<Infallible, ()>) -> (r: ()) {
        match x {
            ControlFlow::Continue(acc) => acc,
            ControlFlow::Break(_) => unreached(),
        }
    }
}

/// A for-each never stops: every element pulled reaches the step, which
/// applies the function to it once, in the order of the sequence, and the
/// caller always receives the unit value.
pub proof fn lemma_for_each_total<I: ForEachAggregator>(items: Seq<I::Item>)
    ensures
        super::spec_signal::<ForEach<I>>(items) == ControlFlow::<Infallible, ()>::Continue(()),
        super::spec_stepped::<ForEach<I>>(items) == items,
        super::spec_reduce::<ForEach<I>>(items) == (),
    decreases items.len(),
{
    if items.len() > 0 {
        lemma_for_each_total::<I>(items.drop_last());
        assert(items.drop_last().push(items.last()) =~= items);
    }
}

} // verus!
