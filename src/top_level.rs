//! Reductions driven by closures, for a sequence that is the whole document.
//!
//! The closures may be nondeterministic to the verifier: what a step returns
//! is known only through its `ensures`, so the contracts here keep the whole
//! sequence of signals and say that each one is a possible outcome of the
//! step on the one before.
use core::convert::Infallible;
use core::marker::PhantomData;
use core::ops::ControlFlow;
use vstd::prelude::*;

use crate::deep::Pull;

verus! {

/// The signals that a step may go to from `before` on `item`: a running
/// reduction goes wherever `f` may take it, a stopped one keeps its payload.
pub open spec fn spec_step<Acc, Item, Brk, F: FnMut(Acc, Item) -> ControlFlow<Brk, Acc>>(
    f: F,
    before: ControlFlow<Brk, Acc>,
    item: Item,
    after: ControlFlow<Brk, Acc>,
) -> bool {
    match before {
        ControlFlow::Continue(acc) => call_ensures(f, (acc, item), after),
        ControlFlow::Break(b) => after == ControlFlow::<Brk, Acc>::Break(b),
    }
}

/// Each signal in `states` is one that the step may go to from the signal
/// before it on the element of the same index: the chain of signals of a
/// reduction over `items`, one more than there are elements.
pub open spec fn spec_chain<Acc, Item, Brk, F: FnMut(Acc, Item) -> ControlFlow<Brk, Acc>>(
    f: F,
    items: Seq<Item>,
    states: Seq<ControlFlow<Brk, Acc>>,
) -> bool {
    &&& states.len() == items.len() + 1
    &&& forall|k: int|
        0 <= k < items.len() ==> spec_step(f, states[k], #[trigger] items[k], states[k + 1])
}

/// A first accumulator and a fallible folding closure, ready to run over a
/// sequence.
pub struct DeserTryFolder<Acc, Item, Brk, F> {
    marker: PhantomData<(Item, Brk)>,
    init: Acc,
    f: F,
}

impl<Acc, Item, Brk, F> DeserTryFolder<Acc, Item, Brk, F> {
    /// The first accumulator.
    pub closed spec fn spec_init(self) -> Acc {
        self.init
    }

    /// The folding closure.
    pub closed spec fn spec_f(self) -> F {
        self.f
    }

    /// Pairs a first accumulator with a folding closure.
    pub fn new(init: Acc, f: F) -> (r: Self)
        ensures
            r.spec_init() == init,
            r.spec_f() == f,
    {
        DeserTryFolder { marker: PhantomData, f, init }
    }
}

impl<Acc, Item, Brk, F: FnMut(Acc, Item) -> ControlFlow<Brk, Acc>> DeserTryFolder<
    Acc,
    Item,
    Brk,
    F,
> {
    /// Starts the reduction: no element pulled, one signal, `Continue(init)`.
    ///
    /// The closure must accept every accumulator and element.
    pub fn start(self) -> (r: TryFolding<Acc, Item, Brk, F>)
        requires
            forall|acc: Acc, item: Item| call_requires(self.spec_f(), (acc, item)),
        ensures
            r.elements() == Seq::<Item>::empty(),
            r.states() == seq![ControlFlow::<Brk, Acc>::Continue(self.spec_init())],
            r.step_fn() == self.spec_f(),
    {
        let ghost states = seq![ControlFlow::Continue(self.init)];
        assert(spec_chain(self.f, Seq::<Item>::empty(), states));
        assert(states.last() == ControlFlow::<Brk, Acc>::Continue(self.init));
        assert forall|acc: Acc, item: Item| call_requires(self.f, (acc, item)) by {
            assert(call_requires(self.spec_f(), (acc, item)));
        }
        TryFolding {
            marker: PhantomData,
            signal: ControlFlow::Continue(self.init),
            f: self.f,
            seen: Ghost(Seq::empty()),
            states: Ghost(states),
        }
    }
}

/// A closure-driven reduction in progress over a sequence cursor.
///
/// It is driven as [`crate::deep::Reduction`] is: the driver pulls, hands
/// over the outcome, and pulls again while asked to, also after a stop.
#[verifier::reject_recursive_types(Acc)]
#[verifier::reject_recursive_types(Item)]
#[verifier::reject_recursive_types(Brk)]
pub struct TryFolding<Acc, Item, Brk, F: FnMut(Acc, Item) -> ControlFlow<Brk, Acc>> {
    marker: PhantomData<Item>,
    signal: ControlFlow<Brk, Acc>,
    f: F,
    seen: Ghost<Seq<Item>>,
    states: Ghost<Seq<ControlFlow<Brk, Acc>>>,
}

impl<Acc, Item, Brk, F: FnMut(Acc, Item) -> ControlFlow<Brk, Acc>> TryFolding<Acc, Item, Brk, F> {
    #[verifier::type_invariant]
    spec fn inv(self) -> bool {
        &&& self.states@.len() == self.seen@.len() + 1
        &&& self.states@.last() == self.signal
        &&& spec_chain(self.f, self.seen@, self.states@)
        &&& forall|acc: Acc, item: Item| call_requires(self.f, (acc, item))
    }

    /// The elements pulled so far, in order.
    pub closed spec fn elements(self) -> Seq<Item> {
        self.seen@
    }

    /// The signal before each element pulled, then the current one.
    pub closed spec fn states(self) -> Seq<ControlFlow<Brk, Acc>> {
        self.states@
    }

    /// The folding closure.
    pub closed spec fn step_fn(self) -> F {
        self.f
    }

    /// Takes what the cursor gave back when asked for the next element.
    ///
    /// An element is handed to the closure while the reduction runs and
    /// dropped once it has stopped; either way the next one is asked for.
    /// The end of the sequence hands back the last signal; a decode error
    /// fails the reduction.
    pub fn on_pull<E>(self, pulled: Result<Option<Item>, E>) -> (r: Pull<
        Self,
        ControlFlow<Brk, Acc>,
        E,
    >)
        ensures
            spec_chain(self.step_fn(), self.elements(), self.states()),
            match pulled {
                Err(e) => r == Pull::<Self, ControlFlow<Brk, Acc>, E>::Failed(e),
                Ok(None) => r == Pull::<Self, ControlFlow<Brk, Acc>, E>::Done(self.states().last()),
                Ok(Some(item)) => r is Next && {
                    let next = r->Next_0;
                    &&& next.elements() == self.elements().push(item)
                    &&& next.step_fn() == self.step_fn()
                    &&& next.states().drop_last() == self.states()
                    &&& spec_step(self.step_fn(), self.states().last(), item, next.states().last())
                },
            },
    {
        proof {
            use_type_invariant(&self);
        }
        match pulled {
            Err(e) => Pull::Failed(e),
            Ok(None) => Pull::Done(self.signal),
            Ok(Some(item)) => {
                let TryFolding { marker, signal, mut f, seen, states } = self;
                let ghost f0 = f;
                let next = match signal {
                    ControlFlow::Continue(acc) => f(acc, item),
                    ControlFlow::Break(b) => ControlFlow::Break(b),
                };
                proof {
                    assert(f == f0);
                }
                let ghost states = states@.push(next);
                let ghost seen = seen@.push(item);
                proof {
                    assert(states.drop_last() =~= self.states@);
                    assert forall|k: int| 0 <= k < seen.len() implies spec_step(
                        f,
                        states[k],
                        #[trigger] seen[k],
                        states[k + 1],
                    ) by {
                        if k < seen.len() - 1 {
                            assert(seen[k] == self.seen@[k]);
                        }
                    }
                }
                Pull::Next(
                    TryFolding {
                        marker,
                        signal: next,
                        f,
                        seen: Ghost(seen),
                        states: Ghost(states),
                    },
                )
            },
        }
    }
}

/// A fold by a closure that computes `g` keeps the order of the sequence:
/// the signal after the first `k` elements is `g` applied to them left to
/// right from the first accumulator.
pub proof fn lemma_closure_fold<Acc, Item, F: FnMut(Acc, Item) -> ControlFlow<Infallible, Acc>>(
    f: F,
    g: spec_fn(Acc, Item) -> Acc,
    init: Acc,
    items: Seq<Item>,
    states: Seq<ControlFlow<Infallible, Acc>>,
)
    requires
        spec_chain(f, items, states),
        states[0] == ControlFlow::<Infallible, Acc>::Continue(init),
        forall|acc: Acc, item: Item, r: ControlFlow<Infallible, Acc>|
            call_ensures(f, (acc, item), r) ==> r == ControlFlow::<Infallible, Acc>::Continue(
                g(acc, item),
            ),
    ensures
        forall|k: int|
            0 <= k <= items.len() ==> #[trigger] states[k] == ControlFlow::<Infallible, Acc>::Continue(
                items.take(k).fold_left(init, g),
            ),
{
    assert forall|k: int| 0 <= k <= items.len() implies #[trigger] states[k]
        == ControlFlow::<Infallible, Acc>::Continue(items.take(k).fold_left(init, g)) by {
        lemma_closure_fold_to(f, g, init, items, states, k);
    }
}

proof fn lemma_closure_fold_to<Acc, Item, F: FnMut(Acc, Item) -> ControlFlow<Infallible, Acc>>(
    f: F,
    g: spec_fn(Acc, Item) -> Acc,
    init: Acc,
    items: Seq<Item>,
    states: Seq<ControlFlow<Infallible, Acc>>,
    k: int,
)
    requires
        spec_chain(f, items, states),
        states[0] == ControlFlow::<Infallible, Acc>::Continue(init),
        forall|acc: Acc, item: Item, r: ControlFlow<Infallible, Acc>|
            call_ensures(f, (acc, item), r) ==> r == ControlFlow::<Infallible, Acc>::Continue(
                g(acc, item),
            ),
        0 <= k <= items.len(),
    ensures
        states[k] == ControlFlow::<Infallible, Acc>::Continue(items.take(k).fold_left(init, g)),
    decreases k,
{
    if k == 0 {
        assert(items.take(0) =~= Seq::<Item>::empty());
    } else {
        lemma_closure_fold_to(f, g, init, items, states, k - 1);
        assert(items.take(k).drop_last() =~= items.take(k - 1));
        assert(spec_step(f, states[k - 1], items[k - 1], states[k]));
    }
}

/// A search by a closure that stops on the elements satisfying `p` ends on
/// the first such element, in the order of the sequence, and runs to the end
/// where there is none.
pub proof fn lemma_closure_find<Item, F: FnMut((), Item) -> ControlFlow<Item, ()>>(
    f: F,
    p: spec_fn(Item) -> bool,
    items: Seq<Item>,
    states: Seq<ControlFlow<Item, ()>>,
)
    requires
        spec_chain(f, items, states),
        states[0] == ControlFlow::<Item, ()>::Continue(()),
        forall|acc: (), item: Item, r: ControlFlow<Item, ()>|
            call_ensures(f, (acc, item), r) ==> r == (if p(item) {
                ControlFlow::<Item, ()>::Break(item)
            } else {
                ControlFlow::<Item, ()>::Continue(())
            }),
    ensures
        match states.last() {
            ControlFlow::Break(x) => exists|i: int|
                0 <= i < items.len() && items[i] == x && p(items[i]) && forall|j: int|
                    0 <= j < i ==> !p(#[trigger] items[j]),
            ControlFlow::Continue(()) => forall|i: int| 0 <= i < items.len() ==> !p(#[trigger] items[i]),
        },
{
    lemma_closure_find_to(f, p, items, states, items.len() as int);
}

proof fn lemma_closure_find_to<Item, F: FnMut((), Item) -> ControlFlow<Item, ()>>(
    f: F,
    p: spec_fn(Item) -> bool,
    items: Seq<Item>,
    states: Seq<ControlFlow<Item, ()>>,
    k: int,
)
    requires
        spec_chain(f, items, states),
        states[0] == ControlFlow::<Item, ()>::Continue(()),
        forall|acc: (), item: Item, r: ControlFlow<Item, ()>|
            call_ensures(f, (acc, item), r) ==> r == (if p(item) {
                ControlFlow::<Item, ()>::Break(item)
            } else {
                ControlFlow::<Item, ()>::Continue(())
            }),
        0 <= k <= items.len(),
    ensures
        match states[k] {
            ControlFlow::Break(x) => exists|i: int|
                0 <= i < k && items[i] == x && p(items[i]) && forall|j: int|
                    0 <= j < i ==> !p(#[trigger] items[j]),
            ControlFlow::Continue(()) => forall|i: int| 0 <= i < k ==> !p(#[trigger] items[i]),
        },
    decreases k,
{
    if k > 0 {
        lemma_closure_find_to(f, p, items, states, k - 1);
        assert(spec_step(f, states[k - 1], items[k - 1], states[k]));
        if let ControlFlow::Break(x) = states[k - 1] {
            let i = choose|i: int|
                0 <= i < k - 1 && items[i] == x && p(items[i]) && forall|j: int|
                    0 <= j < i ==> !p(#[trigger] items[j]);
            assert(0 <= i < k);
        }
    }
}

/// A for-each closure, which always goes on, is handed every element once,
/// in the order of the sequence, and the reduction never stops.
pub proof fn lemma_closure_for_each<Item, F: FnMut((), Item) -> ControlFlow<Infallible, ()>>(
    f: F,
    items: Seq<Item>,
    states: Seq<ControlFlow<Infallible, ()>>,
)
    requires
        spec_chain(f, items, states),
        states[0] == ControlFlow::<Infallible, ()>::Continue(()),
        forall|acc: (), item: Item, r: ControlFlow<Infallible, ()>|
            call_ensures(f, (acc, item), r) ==> r == ControlFlow::<Infallible, ()>::Continue(()),
    ensures
        forall|k: int|
            0 <= k <= items.len() ==> #[trigger] states[k] == ControlFlow::<Infallible, ()>::Continue(
                (),
            ),
        forall|k: int| 0 <= k < items.len() ==> call_ensures(f, ((), #[trigger] items[k]), states[k + 1]),
{
    assert forall|k: int| 0 <= k <= items.len() implies #[trigger] states[k]
        == ControlFlow::<Infallible, ()>::Continue(()) by {
        lemma_closure_for_each_to(f, items, states, k);
    }
    assert forall|k: int| 0 <= k < items.len() implies call_ensures(
        f,
        ((), #[trigger] items[k]),
        states[k + 1],
    ) by {
        assert(states[k] == ControlFlow::<Infallible, ()>::Continue(()));
        assert(spec_step(f, states[k], items[k], states[k + 1]));
    }
}

proof fn lemma_closure_for_each_to<Item, F: FnMut((), Item) -> ControlFlow<Infallible, ()>>(
    f: F,
    items: Seq<Item>,
    states: Seq<ControlFlow<Infallible, ()>>,
    k: int,
)
    requires
        spec_chain(f, items, states),
        states[0] == ControlFlow::<Infallible, ()>::Continue(()),
        forall|acc: (), item: Item, r: ControlFlow<Infallible, ()>|
            call_ensures(f, (acc, item), r) ==> r == ControlFlow::<Infallible, ()>::Continue(()),
        0 <= k <= items.len(),
    ensures
        states[k] == ControlFlow::<Infallible, ()>::Continue(()),
    decreases k,
{
    if k > 0 {
        lemma_closure_for_each_to(f, items, states, k - 1);
        assert(spec_step(f, states[k - 1], items[k - 1], states[k]));
    }
}

/// Once the closure has stopped on element `k`, no later element reaches it:
/// each is dropped and the signal keeps the payload to the end.
pub proof fn lemma_closure_drain<Acc, Item, Brk, F: FnMut(Acc, Item) -> ControlFlow<Brk, Acc>>(
    f: F,
    items: Seq<Item>,
    states: Seq<ControlFlow<Brk, Acc>>,
    k: int,
)
    requires
        spec_chain(f, items, states),
        0 <= k < items.len(),
        states[k] is Continue,
        states[k + 1] is Break,
    ensures
        forall|j: int| k < j <= items.len() ==> #[trigger] states[j] == states[k + 1],
        states.last() == states[k + 1],
{
    assert forall|j: int| k < j <= items.len() implies #[trigger] states[j] == states[k + 1] by {
        lemma_closure_drain_to(f, items, states, k, j);
    }
}

proof fn lemma_closure_drain_to<Acc, Item, Brk, F: FnMut(Acc, Item) -> ControlFlow<Brk, Acc>>(
    f: F,
    items: Seq<Item>,
    states: Seq<ControlFlow<Brk, Acc>>,
    k: int,
    j: int,
)
    requires
        spec_chain(f, items, states),
        0 <= k < j <= items.len(),
        states[k + 1] is Break,
    ensures
        states[j] == states[k + 1],
    decreases j - k,
{
    if j > k + 1 {
        lemma_closure_drain_to(f, items, states, k, j - 1);
        assert(spec_step(f, states[j - 1], items[j - 1], states[j]));
    }
}

/// Lifts the result of a fold step that cannot stop.
pub fn lift_infallible<T>(val: T) -> (r: ControlFlow<Infallible, T>)
    ensures
        r == ControlFlow::<Infallible, T>::Continue(val),
{
    ControlFlow::Continue(val)
}

/// One step of a search: stop with the element where the predicate held on
/// it, else go on.
pub fn find_step<Item>(hit: bool, item: Item) -> (r: ControlFlow<Item, ()>)
    ensures
        r == (if hit {
            ControlFlow::<Item, ()>::Break(item)
        } else {
            ControlFlow::<Item, ()>::Continue(())
        }),
{
    if hit {
        ControlFlow::Break(item)
    } else {
        ControlFlow::Continue(())
    }
}

/// The outcome of a search: the element it stopped on, if any.
pub fn found<Item>(x: ControlFlow<Item, ()>) -> (r: Option<Item>)
    ensures
        r == match x {
            ControlFlow::Continue(()) => None::<Item>,
            ControlFlow::Break(item) => Some(item),
        },
{
    match x {
        ControlFlow::Continue(()) => None,
        ControlFlow::Break(item) => Some(item),
    }
}

} // verus!
