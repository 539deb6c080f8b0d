//! Searching for the first element that satisfies a predicate.
use core::marker::PhantomData;
use core::ops::ControlFlow;
use vstd::prelude::*;

use super::Aggregator;

verus! {

// The spec functions of the aggregation traits below stand for nothing
// until an implementation states them: one that is verified gives each its
// meaning, and the `ensures` of the exec functions then hold it to them.

/// Searches for the first element that satisfies a predicate.
pub struct Find<I> {
    marker: PhantomData<I>,
}

/// A predicate searched for among the elements.
pub trait FindAggregator {
    /// The element decoded from the sequences.
    type Item;

    /// Whether the element is the one searched for.
    closed spec fn spec_f(item: Self::Item) -> bool {
        arbitrary()
    }

    /// Core searching function.
    fn f(item: &Self::Item) -> (r: bool)
        ensures
            r == Self::spec_f(*item),
    ;
}

impl<I: FindAggregator> Aggregator for Find<I> {
    type Acc = ();

    type Item = I::Item;

    type Break = I::Item;

    type Value = Option<I::Item>;

    open spec fn spec_init() -> () {
        ()
    }

    open spec fn spec_try_fold(acc: (), item: I::Item) -> ControlFlow<I::Item, ()> {
        if I::spec_f(item) {
            ControlFlow::Break(item)
        } else {
            ControlFlow::Continue(())
        }
    }

    open spec fn spec_finalize(x: ControlFlow<I::Item, ()>) -> Option<I::Item> {
        match x {
            ControlFlow::Continue(()) => None,
            ControlFlow::Break(item) => Some(item),
        }
    }

    open spec fn spec_accepts(x: ControlFlow<I::Item, ()>) -> bool {
        true
    }

    fn init() -> (r: ()) {
        ()
    }

    fn try_fold(acc: (), item: I::Item) -> (r: ControlFlow<I::Item, ()>) {
        if I::f(&item) {
            ControlFlow::Break(item)
        } else {
            ControlFlow::Continue(())
        }
    }

    fn finalize(x: ControlFlow<I::Item, ()>) -> (r: Option<I::Item>) {
        match x {
            ControlFlow::Continue(()) => None,
            ControlFlow::Break(item) => Some(item),
        }
    }
}

/// A search returns the first element, in the order of the sequence, that
/// satisfies the predicate, or `None` where none does.
pub proof fn lemma_find_first<I: FindAggregator>(items: Seq<I::Item>)
    ensures
        match super::spec_reduce::<Find<I>>(items) {
            Some(found) => exists|i: int|
                0 <= i < items.len() && items[i] == found && I::spec_f(items[i]) && forall|j: int|
                    0 <= j < i ==> !I::spec_f(#[trigger] items[j]),
            None => forall|i: int| 0 <= i < items.len() ==> !I::spec_f(#[trigger] items[i]),
        },
    decreases items.len(),
{
    if items.len() > 0 {
        let prev = items.drop_last();
        lemma_find_first::<I>(prev);
        match super::spec_signal::<Find<I>>(prev) {
            ControlFlow::Continue(()) => {
                assert forall|i: int| 0 <= i < prev.len() implies !I::spec_f(#[trigger] items[i]) by {
                    assert(items[i] == prev[i]);
                }
                if I::spec_f(items.last()) {
                    assert(items[items.len() - 1] == items.last());
                }
            },
            ControlFlow::Break(found) => {
                let i = choose|i: int|
                    0 <= i < prev.len() && prev[i] == found && I::spec_f(prev[i]) && forall|j: int|
                        0 <= j < i ==> !I::spec_f(#[trigger] prev[j]);
                assert(items[i] == prev[i]);
                assert forall|j: int| 0 <= j < i implies !I::spec_f(#[trigger] items[j]) by {
                    assert(items[j] == prev[j]);
                }
            },
        }
    }
}

} // verus!
