//! Reductions driven by named aggregators, for a sequence found at any depth.
use core::marker::PhantomData;
use core::ops::ControlFlow;
use vstd::prelude::*;

pub mod find;
pub mod fold;
pub mod for_each;
pub mod try_fold;

pub use find::{Find, FindAggregator};
pub use fold::{Fold, FoldAggregator};
pub use for_each::{ForEach, ForEachAggregator};
pub use try_fold::{TryFold, TryFoldAggregator};

verus! {

/// The trait on which every reduction is based.
///
/// `init` gives the first accumulator, `try_fold` takes one element and
/// either goes on with a new accumulator or stops with a payload, and
/// `finalize` turns the last signal into the value handed to the caller.
/// Each operation is described by a spec function of the same name, which
/// stands for nothing until an implementation states it; a verified
/// implementation gives each its meaning, and the `ensures` of the exec
/// functions hold it to them.
pub trait Aggregator {
    /// The accumulator threaded through the reduction.
    type Acc;
    /// The element decoded from the sequence.
    type Item;
    /// The payload of an early stop.
    type Break;
    /// The value handed to the caller.
    type Value;

    /// The first accumulator.
    closed spec fn spec_init() -> Self::Acc {
        arbitrary()
    }

    /// One step of the reduction.
    closed spec fn spec_try_fold(acc: Self::Acc, item: Self::Item) -> ControlFlow<
        Self::Break,
        Self::Acc,
    > {
        arbitrary()
    }

    /// The value obtained from the last signal.
    closed spec fn spec_finalize(x: ControlFlow<Self::Break, Self::Acc>) -> Self::Value {
        arbitrary()
    }

    /// The signals that `finalize` takes: every aggregator takes a
    /// `Continue`, and those that can stop take each `Break` too.
    closed spec fn spec_accepts(x: ControlFlow<Self::Break, Self::Acc>) -> bool {
        arbitrary()
    }

    /// Initial value of the accumulator.
    fn init() -> (r: Self::Acc)
        ensures
            r == Self::spec_init(),
            Self::spec_accepts(ControlFlow::Continue(r)),
    ;

    /// The core folding function.
    fn try_fold(acc: Self::Acc, item: Self::Item) -> (r: ControlFlow<Self::Break, Self::Acc>)
        ensures
            r == Self::spec_try_fold(acc, item),
            Self::spec_accepts(r),
    ;

    /// Turns the last signal into the aggregated value.
    ///
    /// The last signal of a reduction is the first accumulator or what a step
    /// returned, which the `ensures` of `init` and `try_fold` say it takes.
    fn finalize(x: ControlFlow<Self::Break, Self::Acc>) -> (r: Self::Value)
        requires
            Self::spec_accepts(x),
        ensures
            r == Self::spec_finalize(x),
    ;
}

/// The signal after one more element: a running reduction takes a step with
/// it, a stopped one drops it and keeps its payload.
pub open spec fn spec_advance<I: Aggregator>(
    signal: ControlFlow<I::Break, I::Acc>,
    item: I::Item,
) -> ControlFlow<I::Break, I::Acc> {
    match signal {
        ControlFlow::Continue(acc) => I::spec_try_fold(acc, item),
        ControlFlow::Break(b) => ControlFlow::Break(b),
    }
}

/// The signal once the given elements have been pulled, in order, from the
/// first accumulator on.
pub open spec fn spec_signal<I: Aggregator>(items: Seq<I::Item>) -> ControlFlow<I::Break, I::Acc>
    decreases items.len(),
{
    if items.len() == 0 {
        ControlFlow::Continue(I::spec_init())
    } else {
        spec_advance::<I>(spec_signal::<I>(items.drop_last()), items.last())
    }
}

/// The value that a reduction over the given elements hands to its caller.
pub open spec fn spec_reduce<I: Aggregator>(items: Seq<I::Item>) -> I::Value {
    I::spec_finalize(spec_signal::<I>(items))
}

/// The elements handed to the step, in order: those pulled while the
/// reduction still runs, up to and including the one on which it stopped.
pub open spec fn spec_stepped<I: Aggregator>(items: Seq<I::Item>) -> Seq<I::Item>
    decreases items.len(),
{
    if items.len() == 0 {
        Seq::empty()
    } else if spec_signal::<I>(items.drop_last()) is Continue {
        spec_stepped::<I>(items.drop_last()).push(items.last())
    } else {
        spec_stepped::<I>(items.drop_last())
    }
}

/// Once the step on element `k` has stopped, each later element is pulled and
/// dropped: the signal keeps the payload, no later element reaches the step,
/// and the caller receives the finalized payload.
pub proof fn lemma_drain<I: Aggregator>(items: Seq<I::Item>, k: int)
    requires
        0 <= k < items.len(),
        spec_signal::<I>(items.take(k)) is Continue,
        spec_signal::<I>(items.take(k + 1)) is Break,
    ensures
        forall|j: int|
            k < j <= items.len() ==> #[trigger] spec_signal::<I>(items.take(j)) == spec_signal::<I>(
                items.take(k + 1),
            ),
        spec_stepped::<I>(items) == items.take(k + 1),
        spec_reduce::<I>(items) == I::spec_finalize(spec_signal::<I>(items.take(k + 1))),
{
    lemma_stepped_prefix::<I>(items.take(k));
    assert(items.take(k + 1).drop_last() =~= items.take(k));
    assert forall|j: int| k < j <= items.len() implies #[trigger] spec_signal::<I>(items.take(j))
        == spec_signal::<I>(items.take(k + 1)) && spec_stepped::<I>(items.take(j)) == items.take(
        k + 1,
    ) by {
        lemma_drain_to::<I>(items, k, j);
    }
    assert(items.take(items.len() as int) =~= items);
}

proof fn lemma_drain_to<I: Aggregator>(items: Seq<I::Item>, k: int, j: int)
    requires
        0 <= k < j <= items.len(),
        spec_signal::<I>(items.take(k)) is Continue,
        spec_signal::<I>(items.take(k + 1)) is Break,
        spec_stepped::<I>(items.take(k)) == items.take(k),
    ensures
        spec_signal::<I>(items.take(j)) == spec_signal::<I>(items.take(k + 1)),
        spec_stepped::<I>(items.take(j)) == items.take(k + 1),
    decreases j - k,
{
    assert(items.take(j).drop_last() =~= items.take(j - 1));
    assert(items.take(k).push(items[k]) =~= items.take(k + 1));
    if j > k + 1 {
        lemma_drain_to::<I>(items, k, j - 1);
    }
}

/// While the reduction runs, every element pulled so far reached the step.
proof fn lemma_stepped_prefix<I: Aggregator>(items: Seq<I::Item>)
    requires
        spec_signal::<I>(items) is Continue,
    ensures
        spec_stepped::<I>(items) == items,
    decreases items.len(),
{
    if items.len() > 0 {
        let prev = items.drop_last();
        if spec_signal::<I>(prev) is Break {
            assert(spec_signal::<I>(items) is Break);
        } else {
            lemma_stepped_prefix::<I>(prev);
            assert(prev.push(items.last()) =~= items);
        }
    }
}

/// On an empty sequence a fold hands back its first accumulator unchanged, a
/// for-each applies its function to nothing, and a search finds nothing.
pub proof fn lemma_empty_sequence<F: FoldAggregator, E: ForEachAggregator, S: FindAggregator>()
    ensures
        spec_reduce::<Fold<F>>(Seq::empty()) == F::spec_init(),
        spec_stepped::<ForEach<E>>(Seq::empty()) == Seq::<E::Item>::empty(),
        spec_reduce::<Find<S>>(Seq::empty()) == None::<S::Item>,
{
}

/// What the driver of a reduction does after handing it one pull.
pub enum Pull<S, V, E> {
    /// Pull the next element and hand it to this reduction.
    Next(S),
    /// The sequence is exhausted: this is the aggregated value.
    Done(V),
    /// Decoding failed: the whole reduction fails with this error.
    Failed(E),
}

/// A reduction in progress over a sequence cursor.
///
/// The driver pulls an element, hands the outcome to `on_pull`, and does what
/// comes back, until the reduction is done or has failed. It is asked to pull
/// after every element, also once a step has stopped: the remaining elements
/// are still decoded and dropped, so the cursor always ends past the sequence.
pub struct Reduction<I: Aggregator> {
    marker: PhantomData<I>,
    signal: ControlFlow<I::Break, I::Acc>,
    seen: Ghost<Seq<I::Item>>,
}

impl<I: Aggregator> Reduction<I> {
    #[verifier::type_invariant]
    spec fn inv(self) -> bool {
        &&& self.signal == spec_signal::<I>(self.seen@)
        &&& I::spec_accepts(self.signal)
    }

    /// The elements pulled so far, in order.
    pub closed spec fn elements(self) -> Seq<I::Item> {
        self.seen@
    }

    /// The signal after the elements pulled so far.
    pub open spec fn signal(self) -> ControlFlow<I::Break, I::Acc> {
        spec_signal::<I>(self.elements())
    }

    /// Starts a reduction: no element has been pulled yet.
    pub fn start() -> (r: Self)
        ensures
            r.elements() == Seq::<I::Item>::empty(),
    {
        let acc = I::init();
        Reduction { marker: PhantomData, signal: ControlFlow::Continue(acc), seen: Ghost(Seq::empty()) }
    }

    /// Takes what the cursor gave back when asked for the next element.
    ///
    /// An element moves the reduction on and asks for the next one, whether
    /// or not a step has stopped; the end of the sequence finalizes; a decode
    /// error fails the reduction, without finalizing.
    pub fn on_pull<E>(self, pulled: Result<Option<I::Item>, E>) -> (r: Pull<Self, I::Value, E>)
        ensures
            match pulled {
                Err(e) => r == Pull::<Self, I::Value, E>::Failed(e),
                Ok(None) => r == Pull::<Self, I::Value, E>::Done(spec_reduce::<I>(self.elements())),
                Ok(Some(item)) => r is Next && r->Next_0.elements() == self.elements().push(item),
            },
    {
        proof {
            use_type_invariant(&self);
        }
        match pulled {
            Err(e) => Pull::Failed(e),
            Ok(None) => Pull::Done(I::finalize(self.signal)),
            Ok(Some(item)) => {
                let ghost seen = self.seen@.push(item);
                proof {
                    assert(seen.drop_last() =~= self.seen@);
                }
                let signal = match self.signal {
                    ControlFlow::Continue(acc) => I::try_fold(acc, item),
                    ControlFlow::Break(b) => ControlFlow::Break(b),
                };
                Pull::Next(Reduction { marker: PhantomData, signal, seen: Ghost(seen) })
            },
        }
    }
}

/// The value of a sequence reduced in place, as a field of a larger
/// document: only the aggregated value is kept.
pub struct StreamSeqDeser<I: Aggregator> {
    value: I::Value,
}

impl<I: Aggregator> View for StreamSeqDeser<I> {
    type V = I::Value;

    closed spec fn view(&self) -> I::Value {
        self.value
    }
}

impl<I: Aggregator> core::ops::Deref for StreamSeqDeser<I> {
    type Target = I::Value;

    fn deref(&self) -> (r: &I::Value)
        ensures
            *r == self@,
    {
        &self.value
    }
}

impl<I: Aggregator> StreamSeqDeser<I> {
    /// Holds the value that a reduction handed back.
    pub fn new(value: I::Value) -> (r: Self)
        ensures
            r@ == value,
    {
        StreamSeqDeser { value }
    }

    /// Reference to the aggregated value.
    pub fn value(&self) -> (r: &I::Value)
        ensures
            *r == self@,
    {
        &self.value
    }

    /// Takes ownership of the aggregated value.
    pub fn into_inner(self) -> (r: I::Value)
        ensures
            r == self@,
    {
        self.value
    }
}

} // verus!
