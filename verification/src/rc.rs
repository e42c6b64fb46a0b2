//! The blocking dispatchers: [`Dispatcher`] for plain dispatch in
//! registration order, [`PriorityEventDispatcher`] for dispatch by
//! ascending priority level.
use vstd::prelude::*;

use crate::walk::{
    complete_from, in_progress, run_from, start, step, trace_ok, Signal, WalkState,
};

pub mod dispatcher;
pub mod priority_dispatcher;

pub use dispatcher::Dispatcher;
pub use priority_dispatcher::PriorityEventDispatcher;

verus! {

/// Every event receiver needs to implement this trait in order to
/// receive dispatched events, `T` being the event-identifier type.
///
/// The dispatchers place no contract on `on_event`: a listener may
/// answer anything, and each dispatcher's contract says what happens
/// for every possible answer.
pub trait Listener<T> {
    /// Called once per dispatch of a listened-to event.
    fn on_event(&self, event: &T) -> Option<DispatcherRequest>;
}

/// A request from a listener to its dispatcher, processed right after
/// the listener returns:
///
/// `StopListening` removes the listener from the dispatcher.
///
/// `StopPropagation` stops dispatching of the current event instance;
/// a listener issuing this is the last receiver of the pass.
///
/// `StopListeningAndPropagation` does the first, then the second.
#[derive(Debug)]
pub enum DispatcherRequest {
    /// Stop listening to the dispatcher.
    StopListening,
    /// Stop the event from being dispatched to further listeners.
    StopPropagation,
    /// Stop listening and prevent further dispatch of this event.
    StopListeningAndPropagation,
}

/// How a pass over one listener collection ended: on its own, or
/// stopped early by a propagation-halting request.
#[derive(Debug)]
pub enum ExecuteRequestsResult {
    /// Every listener was visited.
    Finished,
    /// A listener stopped the pass.
    Stopped,
}

/// The control signal a listener's answer stands for in the model of
/// the pass.
pub open spec fn signal_of(r: Option<DispatcherRequest>) -> Signal {
    match r {
        Option::None => Signal::Keep,
        Option::Some(DispatcherRequest::StopListening) => Signal::Remove,
        Option::Some(DispatcherRequest::StopPropagation) => Signal::Halt,
        Option::Some(DispatcherRequest::StopListeningAndPropagation) => Signal::RemoveAndHalt,
    }
}

/// [`signal_of`] as a value, for use with the trace model.
pub open spec fn request_signals() -> spec_fn(Option<DispatcherRequest>) -> Signal {
    |r: Option<DispatcherRequest>| signal_of(r)
}

/// Whether `sigs` is a trace the listeners themselves could produce
/// for `event`: every signal stands for a possible answer of
/// [`Listener::on_event`] on the listener under the cursor at that
/// step.
pub open spec fn listener_trace_ok<T, L: Listener<T>>(
    event: T,
    st: WalkState<L>,
    sigs: Seq<Signal>,
) -> bool
    decreases sigs.len(),
{
    sigs.len() == 0 || {
        &&& in_progress(st)
        &&& exists|r: Option<DispatcherRequest>|
            #[trigger] call_ensures(L::on_event, (&st.items[st.cursor], &event), r) && signal_of(r)
                == sigs.first()
        &&& listener_trace_ok(event, step(st, sigs.first()), sigs.drop_first())
    }
}

/// A trace produced through an invoker that only forwards to
/// [`Listener::on_event`] is a trace of the listeners themselves.
pub proof fn lemma_trace_ok_on_event<T, L: Listener<T>, F: Fn(&L) -> Option<DispatcherRequest>>(
    f: F,
    event: T,
    st: WalkState<L>,
    sigs: Seq<Signal>,
)
    requires
        forall|l: &L, r: Option<DispatcherRequest>|
            #[trigger] call_ensures(f, (l,), r) ==> call_ensures(L::on_event, (l, &event), r),
        trace_ok(f, request_signals(), st, sigs),
    ensures
        listener_trace_ok(event, st, sigs),
    decreases sigs.len(),
{
    if sigs.len() != 0 {
        let r = choose|r: Option<DispatcherRequest>|
            #[trigger] call_ensures(f, (&st.items[st.cursor],), r) && request_signals()(r)
                == sigs.first();
        assert(call_ensures(L::on_event, (&st.items[st.cursor], &event), r));
        assert(signal_of(r) == sigs.first());
        lemma_trace_ok_on_event(f, event, step(st, sigs.first()), sigs.drop_first());
    }
}

/// A capability-object slot: a non-owning handle to a listener,
/// created from a strong reference at registration time. The handle
/// (a `std::rc::Weak`) is opaque; whether it can still be upgraded
/// depends on the rest of the program.
#[verifier::external_body]
#[verifier::reject_recursive_types(L)]
pub struct RcSlot<L> {
    handle: std::rc::Weak<L>,
}

impl<L> RcSlot<L> {
    /// Relies on `std::rc::Rc::downgrade`: creates a non-owning handle
    /// to the listener's allocation without keeping it alive.
    #[verifier::external_body]
    pub(crate) fn of(listener: &std::rc::Rc<L>) -> RcSlot<L> {
        RcSlot { handle: std::rc::Rc::downgrade(listener) }
    }

    /// Relies on `std::rc::Weak::upgrade`: yields an owning handle to
    /// the referent while other strong owners remain, and `None` once
    /// every strong owner has been dropped. Which of the two happens
    /// depends on the rest of the program, so nothing is promised of
    /// the outcome.
    #[verifier::external_body]
    pub(crate) fn upgrade(&self) -> Option<std::rc::Rc<L>> {
        self.handle.upgrade()
    }

    /// Relies on `std::rc::Weak::clone`: the copy is a handle to the
    /// same allocation, indistinguishable from the original.
    #[verifier::external_body]
    pub(crate) fn duplicate(&self) -> (r: RcSlot<L>)
        ensures
            r == *self,
    {
        RcSlot { handle: self.handle.clone() }
    }
}

/// Whether `sigs` is a trace the weakly-held listeners themselves
/// could produce for `event`: each signal is either a dead slot's
/// silent `Keep`, or stands for a possible [`Listener::on_event`]
/// answer of some listener.
pub open spec fn slot_trace_ok<T, L: Listener<T>>(
    event: T,
    st: WalkState<RcSlot<L>>,
    sigs: Seq<Signal>,
) -> bool
    decreases sigs.len(),
{
    sigs.len() == 0 || {
        &&& in_progress(st)
        &&& exists|r: Option<DispatcherRequest>|
            #[trigger] signal_of(r) == sigs.first() && (r is None || exists|l: L|
                call_ensures(L::on_event, (&l, &event), r))
        &&& slot_trace_ok(event, step(st, sigs.first()), sigs.drop_first())
    }
}

/// Whether `sigs` is a trace the stored callables themselves could
/// produce for `event`: every signal stands for a possible answer of
/// the callable under the cursor at that step.
pub open spec fn fn_trace_ok<T, F: Fn(&T) -> Option<DispatcherRequest>>(
    event: T,
    st: WalkState<F>,
    sigs: Seq<Signal>,
) -> bool
    decreases sigs.len(),
{
    sigs.len() == 0 || {
        &&& in_progress(st)
        &&& exists|r: Option<DispatcherRequest>|
            #[trigger] call_ensures(st.items[st.cursor], (&event,), r) && signal_of(r)
                == sigs.first()
        &&& fn_trace_ok(event, step(st, sigs.first()), sigs.drop_first())
    }
}

/// A trace produced through an invoker that upgrades a slot and
/// forwards to [`Listener::on_event`], answering `Keep` for a dead
/// slot, is a trace of the weakly-held listeners themselves.
pub proof fn lemma_trace_ok_slots<T, L: Listener<T>, F: Fn(&RcSlot<L>) -> Option<DispatcherRequest>>(
    f: F,
    event: T,
    st: WalkState<RcSlot<L>>,
    sigs: Seq<Signal>,
)
    requires
        forall|x: &RcSlot<L>, r: Option<DispatcherRequest>|
            #[trigger] call_ensures(f, (x,), r) ==> (r is None || exists|l: L|
                call_ensures(L::on_event, (&l, &event), r)),
        trace_ok(f, request_signals(), st, sigs),
    ensures
        slot_trace_ok(event, st, sigs),
    decreases sigs.len(),
{
    if sigs.len() != 0 {
        let r = choose|r: Option<DispatcherRequest>|
            #[trigger] call_ensures(f, (&st.items[st.cursor],), r) && request_signals()(r)
                == sigs.first();
        assert(signal_of(r) == sigs.first());
        assert(r is None || exists|l: L| call_ensures(L::on_event, (&l, &event), r));
        lemma_trace_ok_slots(f, event, step(st, sigs.first()), sigs.drop_first());
    }
}

/// A trace produced through an invoker that only applies the stored
/// callable to the event is a trace of the callables themselves.
pub proof fn lemma_trace_ok_fns<
    T,
    F: Fn(&T) -> Option<DispatcherRequest>,
    G: Fn(&F) -> Option<DispatcherRequest>,
>(g: G, event: T, st: WalkState<F>, sigs: Seq<Signal>)
    requires
        forall|x: &F, r: Option<DispatcherRequest>|
            #[trigger] call_ensures(g, (x,), r) ==> call_ensures(*x, (&event,), r),
        trace_ok(g, request_signals(), st, sigs),
    ensures
        fn_trace_ok(event, st, sigs),
    decreases sigs.len(),
{
    if sigs.len() != 0 {
        let r = choose|r: Option<DispatcherRequest>|
            #[trigger] call_ensures(g, (&st.items[st.cursor],), r) && request_signals()(r)
                == sigs.first();
        assert(signal_of(r) == sigs.first());
        assert(call_ensures(st.items[st.cursor], (&event,), r));
        lemma_trace_ok_fns(g, event, step(st, sigs.first()), sigs.drop_first());
    }
}

/// Removes every slot whose referent has been dropped: the surviving
/// slots are the mask-selected subsequence of the old ones, in order.
#[verifier::loop_isolation(false)]
pub(crate) fn purge_dead_slots<L>(slots: &mut Vec<RcSlot<L>>)
    ensures
        exists|keep: Seq<bool>|
            keep.len() == old(slots)@.len() && final(slots)@ == #[trigger] crate::walk::masked(
                old(slots)@,
                keep,
            ),
{
    let mut live: Vec<RcSlot<L>> = Vec::new();
    let ghost mut keep: Seq<bool> = Seq::empty();
    let mut i: usize = 0;
    while i < slots.len()
        invariant
            i <= slots@.len(),
            keep.len() == i as int,
            live@ == crate::walk::masked(slots@.take(i as int), keep),
        decreases slots@.len() - i,
    {
        let is_live = slots[i].upgrade().is_some();
        proof {
            crate::walk::lemma_masked_snoc(slots@.take(i as int), keep, slots@[i as int], is_live);
            assert(slots@.take(i as int).push(slots@[i as int]) =~= slots@.take(i as int + 1));
            keep = keep.push(is_live);
        }
        if is_live {
            let slot = slots[i].duplicate();
            live.push(slot);
        }
        i = i + 1;
    }
    proof {
        assert(slots@.take(slots@.len() as int) =~= slots@);
    }
    *slots = live;
}

/// Walks `vec` by index and applies `function` to each element.
/// `function`'s answer directs the walk: `None` keeps the element,
/// `StopListening` removes it by swapping in the last element (so the
/// original order is not preserved past a removal), `StopPropagation`
/// stops the walk, and `StopListeningAndPropagation` does both.
///
/// The walk is exactly a pass of the model in [`crate::walk`]: the
/// answers form a trace that the function could produce, the trace
/// runs the walk to its end, and the final contents and result are
/// what the model says for that trace.
#[verifier::loop_isolation(false)]
pub fn execute_dispatcher_requests<T, F: Fn(&T) -> Option<DispatcherRequest>>(
    vec: &mut Vec<T>,
    function: F,
) -> (result: ExecuteRequestsResult)
    requires
        forall|i: int|
            0 <= i < old(vec)@.len() ==> call_requires(function, (&old(vec)@[i],)),
    ensures
        exists|sigs: Seq<Signal>|
            {
                &&& #[trigger] trace_ok(function, request_signals(), start(old(vec)@), sigs)
                &&& complete_from(start(old(vec)@), sigs)
                &&& final(vec)@ == run_from(start(old(vec)@), sigs).items
                &&& (result is Stopped <==> run_from(start(old(vec)@), sigs).halted)
            },
{
    let ghost st0 = start(old(vec)@);
    let ghost mut sigs: Seq<Signal> = Seq::empty();
    let mut index: usize = 0;

    loop
        invariant
            forall|i: int| 0 <= i < vec@.len() ==> call_requires(function, (&vec@[i],)),
            trace_ok(function, request_signals(), st0, sigs),
            crate::walk::live_from(st0, sigs),
            run_from(st0, sigs).items == vec@,
            run_from(st0, sigs).cursor == index as int,
            !run_from(st0, sigs).halted,
        decreases vec@.len() - index,
    {
        if index < vec.len() {
            let response = function(&vec[index]);
            let ghost g = signal_of(response);
            proof {
                assert(request_signals()(response) == signal_of(response));
                crate::walk::lemma_trace_ok_snoc(function, request_signals(), st0, sigs, response);
                crate::walk::lemma_run_from_snoc(st0, sigs, g);
                sigs = sigs.push(g);
            }
            match response {
                Option::None => {
                    index = index + 1;
                },
                Option::Some(DispatcherRequest::StopListening) => {
                    vec.swap_remove(index);
                },
                Option::Some(DispatcherRequest::StopPropagation) => {
                    proof {
                        assert(trace_ok(function, request_signals(), start(old(vec)@), sigs));
                        assert(complete_from(start(old(vec)@), sigs));
                        assert(vec@ == run_from(start(old(vec)@), sigs).items);
                    }
                    return ExecuteRequestsResult::Stopped;
                },
                Option::Some(DispatcherRequest::StopListeningAndPropagation) => {
                    vec.swap_remove(index);
                    proof {
                        assert(trace_ok(function, request_signals(), start(old(vec)@), sigs));
                        assert(complete_from(start(old(vec)@), sigs));
                        assert(vec@ == run_from(start(old(vec)@), sigs).items);
                    }
                    return ExecuteRequestsResult::Stopped;
                },
            }
        } else {
            proof {
                assert(trace_ok(function, request_signals(), start(old(vec)@), sigs));
                assert(complete_from(start(old(vec)@), sigs));
                assert(vec@ == run_from(start(old(vec)@), sigs).items);
            }
            return ExecuteRequestsResult::Finished;
        }
    }
}

} // verus!
