//! The thread-safe dispatchers: [`EventDispatcher`] for blocking
//! dispatch to weakly-held listeners and owned callables,
//! [`PriorityDispatcher`] for dispatch by ascending priority level,
//! [`ParallelDispatcher`] for thread-pool fan-out, and
//! [`AsyncDispatcher`] for task-based fan-out.
use vstd::prelude::*;

use crate::walk::{complete_from, in_progress, run_from, start, step, trace_ok, Signal, WalkState};

pub mod async_dispatcher;
pub mod dispatcher;
pub mod parallel_dispatcher;
pub mod priority_dispatcher;

pub use async_dispatcher::AsyncDispatcher;
pub use dispatcher::EventDispatcher;
pub use parallel_dispatcher::ParallelDispatcher;
pub use priority_dispatcher::PriorityDispatcher;

verus! {

/// A request from a listener to a dispatcher with a strict visiting
/// order (the blocking and the priority dispatcher):
///
/// `StopListening` removes the listener from the dispatcher.
///
/// `StopPropagation` prevents the event from reaching any later
/// listener of this pass — for the priority dispatcher, including
/// every later priority group.
///
/// `StopListeningAndPropagation` does the first, then the second.
#[derive(Debug)]
pub enum PriorityDispatcherResult {
    /// Stop listening to the dispatcher.
    StopListening,
    /// Prevent the event from reaching any later listener.
    StopPropagation,
    /// Stop listening and prevent the event from reaching any later
    /// listener.
    StopListeningAndPropagation,
}

/// How a pass over one listener collection ended: on its own, or
/// stopped early by a propagation-halting request.
#[derive(Debug)]
pub enum ExecuteRequestsResult {
    /// Every listener was visited.
    Finished,
    /// A listener stopped the pass.
    Stopped,
}

/// A request from a listener to the parallel dispatcher. Listeners
/// run concurrently, so no propagation-stopping request exists: there
/// is no "later" listener to protect.
#[derive(Debug)]
pub enum ParallelDispatchResult {
    /// Stop the listener from receiving further events.
    StopListening,
}

/// A request from a listener to the concurrent task-based dispatcher.
/// Tasks complete in no particular order, so no propagation-stopping
/// request exists.
#[derive(Debug)]
pub enum AsyncDispatchResult {
    /// Stop the listener from receiving further events.
    StopListening,
}

/// Every event receiver for [`crate::sync::dispatcher::EventDispatcher`]
/// implements this trait, `T` being the event-identifier type. The
/// dispatcher holds the receiver through a non-owning reference and
/// never keeps it alive by itself.
pub trait Listener<T> {
    /// Called once per dispatch of a listened-to event.
    fn on_event(&self, event: &T) -> Option<PriorityDispatcherResult>;
}

/// Every event receiver for
/// [`crate::sync::parallel_dispatcher::ParallelDispatcher`] implements
/// this trait. Invocations of different listeners may run at the same
/// time; a listener that mutates itself wraps its state in its own
/// lock.
pub trait ParallelListener<T> {
    /// Called once per dispatch of a listened-to event.
    fn on_event(&self, event: &T) -> Option<ParallelDispatchResult>;
}

/// Every event receiver for
/// [`crate::sync::priority_dispatcher::PriorityDispatcher`] implements
/// this trait.
pub trait PriorityListener<T> {
    /// Called once per dispatch of a listened-to event.
    fn on_event(&self, event: &T) -> Option<PriorityDispatcherResult>;
}

/// The control signal a listener's answer stands for in the model of
/// the pass.
pub open spec fn signal_of(r: Option<PriorityDispatcherResult>) -> Signal {
    match r {
        Option::None => Signal::Keep,
        Option::Some(PriorityDispatcherResult::StopListening) => Signal::Remove,
        Option::Some(PriorityDispatcherResult::StopPropagation) => Signal::Halt,
        Option::Some(PriorityDispatcherResult::StopListeningAndPropagation) => Signal::RemoveAndHalt,
    }
}

/// [`signal_of`] as a value, for use with the trace model.
pub open spec fn request_signals() -> spec_fn(Option<PriorityDispatcherResult>) -> Signal {
    |r: Option<PriorityDispatcherResult>| signal_of(r)
}

/// Walks `vec` by index and applies `function` to each element.
/// `function`'s answer directs the walk: `None` keeps the element,
/// `StopListening` removes it by swapping in the last element (so the
/// original order is not preserved past a removal), `StopPropagation`
/// stops the walk, and `StopListeningAndPropagation` does both.
///
/// The walk is exactly a pass of the model in [`crate::walk`]: the
/// answers form a trace that the function could produce, the trace
/// runs the walk to its end, and the final contents and result are
/// what the model says for that trace.
#[verifier::loop_isolation(false)]
pub fn execute_sync_dispatcher_requests<T, F: Fn(&T) -> Option<PriorityDispatcherResult>>(
    vec: &mut Vec<T>,
    function: F,
) -> (result: ExecuteRequestsResult)
    requires
        forall|i: int|
            0 <= i < old(vec)@.len() ==> call_requires(function, (&old(vec)@[i],)),
    ensures
        exists|sigs: Seq<Signal>|
            {
                &&& #[trigger] trace_ok(function, request_signals(), start(old(vec)@), sigs)
                &&& complete_from(start(old(vec)@), sigs)
                &&& final(vec)@ == run_from(start(old(vec)@), sigs).items
                &&& (result is Stopped <==> run_from(start(old(vec)@), sigs).halted)
            },
{
    let ghost st0 = start(old(vec)@);
    let ghost mut sigs: Seq<Signal> = Seq::empty();
    let mut index: usize = 0;

    loop
        invariant
            forall|i: int| 0 <= i < vec@.len() ==> call_requires(function, (&vec@[i],)),
            trace_ok(function, request_signals(), st0, sigs),
            crate::walk::live_from(st0, sigs),
            run_from(st0, sigs).items == vec@,
            run_from(st0, sigs).cursor == index as int,
            !run_from(st0, sigs).halted,
        decreases vec@.len() - index,
    {
        if index < vec.len() {
            let response = function(&vec[index]);
            let ghost g = signal_of(response);
            proof {
                assert(request_signals()(response) == signal_of(response));
                crate::walk::lemma_trace_ok_snoc(function, request_signals(), st0, sigs, response);
                crate::walk::lemma_run_from_snoc(st0, sigs, g);
                sigs = sigs.push(g);
            }
            match response {
                Option::None => {
                    index = index + 1;
                },
                Option::Some(PriorityDispatcherResult::StopListening) => {
                    vec.swap_remove(index);
                },
                Option::Some(PriorityDispatcherResult::StopPropagation) => {
                    proof {
                        assert(trace_ok(function, request_signals(), start(old(vec)@), sigs));
                        assert(complete_from(start(old(vec)@), sigs));
                        assert(vec@ == run_from(start(old(vec)@), sigs).items);
                    }
                    return ExecuteRequestsResult::Stopped;
                },
                Option::Some(PriorityDispatcherResult::StopListeningAndPropagation) => {
                    vec.swap_remove(index);
                    proof {
                        assert(trace_ok(function, request_signals(), start(old(vec)@), sigs));
                        assert(complete_from(start(old(vec)@), sigs));
                        assert(vec@ == run_from(start(old(vec)@), sigs).items);
                    }
                    return ExecuteRequestsResult::Stopped;
                },
            }
        } else {
            proof {
                assert(trace_ok(function, request_signals(), start(old(vec)@), sigs));
                assert(complete_from(start(old(vec)@), sigs));
                assert(vec@ == run_from(start(old(vec)@), sigs).items);
            }
            return ExecuteRequestsResult::Finished;
        }
    }
}

/// A capability-object slot: a non-owning handle to a listener,
/// created from a strong reference at registration time. The handle
/// (a `std::sync::Weak`) is opaque; whether it can still be upgraded
/// depends on the rest of the program.
#[verifier::external_body]
#[verifier::reject_recursive_types(L)]
pub struct WeakSlot<L> {
    handle: std::sync::Weak<L>,
}

impl<L> WeakSlot<L> {
    /// Relies on `std::sync::Arc::downgrade`: creates a non-owning
    /// handle to the listener's allocation without keeping it alive.
    #[verifier::external_body]
    pub(crate) fn of(listener: &std::sync::Arc<L>) -> WeakSlot<L> {
        WeakSlot { handle: std::sync::Arc::downgrade(listener) }
    }

    /// Relies on `std::sync::Weak::upgrade`: yields an owning handle
    /// to the referent while other strong owners remain, and `None`
    /// once every strong owner has been dropped. Which of the two
    /// happens depends on the rest of the program, so nothing is
    /// promised of the outcome.
    #[verifier::external_body]
    pub(crate) fn upgrade(&self) -> Option<std::sync::Arc<L>> {
        self.handle.upgrade()
    }

    /// Relies on `std::sync::Weak::clone`: the copy is a handle to the
    /// same allocation, indistinguishable from the original.
    #[verifier::external_body]
    pub(crate) fn duplicate(&self) -> (r: WeakSlot<L>)
        ensures
            r == *self,
    {
        WeakSlot { handle: self.handle.clone() }
    }
}

/// Whether `sigs` is a trace the weakly-held listeners themselves
/// could produce for `event`: each signal is either a dead slot's
/// silent `Keep`, or stands for a possible [`Listener::on_event`]
/// answer of some listener.
pub open spec fn slot_trace_ok<T, L: Listener<T>>(
    event: T,
    st: WalkState<WeakSlot<L>>,
    sigs: Seq<Signal>,
) -> bool
    decreases sigs.len(),
{
    sigs.len() == 0 || {
        &&& in_progress(st)
        &&& exists|r: Option<PriorityDispatcherResult>|
            #[trigger] signal_of(r) == sigs.first() && (r is None || exists|l: L|
                call_ensures(L::on_event, (&l, &event), r))
        &&& slot_trace_ok(event, step(st, sigs.first()), sigs.drop_first())
    }
}

/// Whether `sigs` is a trace the stored callables themselves could
/// produce for `event`: every signal stands for a possible answer of
/// the callable under the cursor at that step.
pub open spec fn fn_trace_ok<T, F: Fn(&T) -> Option<PriorityDispatcherResult>>(
    event: T,
    st: WalkState<F>,
    sigs: Seq<Signal>,
) -> bool
    decreases sigs.len(),
{
    sigs.len() == 0 || {
        &&& in_progress(st)
        &&& exists|r: Option<PriorityDispatcherResult>|
            #[trigger] call_ensures(st.items[st.cursor], (&event,), r) && signal_of(r)
                == sigs.first()
        &&& fn_trace_ok(event, step(st, sigs.first()), sigs.drop_first())
    }
}

/// A trace produced through an invoker that upgrades a slot and
/// forwards to [`Listener::on_event`], answering `Keep` for a dead
/// slot, is a trace of the weakly-held listeners themselves.
pub proof fn lemma_trace_ok_slots<
    T,
    L: Listener<T>,
    F: Fn(&WeakSlot<L>) -> Option<PriorityDispatcherResult>,
>(f: F, event: T, st: WalkState<WeakSlot<L>>, sigs: Seq<Signal>)
    requires
        forall|x: &WeakSlot<L>, r: Option<PriorityDispatcherResult>|
            #[trigger] call_ensures(f, (x,), r) ==> (r is None || exists|l: L|
                call_ensures(L::on_event, (&l, &event), r)),
        trace_ok(f, request_signals(), st, sigs),
    ensures
        slot_trace_ok(event, st, sigs),
    decreases sigs.len(),
{
    if sigs.len() != 0 {
        let r = choose|r: Option<PriorityDispatcherResult>|
            #[trigger] call_ensures(f, (&st.items[st.cursor],), r) && request_signals()(r)
                == sigs.first();
        assert(signal_of(r) == sigs.first());
        assert(r is None || exists|l: L| call_ensures(L::on_event, (&l, &event), r));
        lemma_trace_ok_slots(f, event, step(st, sigs.first()), sigs.drop_first());
    }
}

/// A trace produced through an invoker that only applies the stored
/// callable to the event is a trace of the callables themselves.
pub proof fn lemma_trace_ok_fns<
    T,
    F: Fn(&T) -> Option<PriorityDispatcherResult>,
    G: Fn(&F) -> Option<PriorityDispatcherResult>,
>(g: G, event: T, st: WalkState<F>, sigs: Seq<Signal>)
    requires
        forall|x: &F, r: Option<PriorityDispatcherResult>|
            #[trigger] call_ensures(g, (x,), r) ==> call_ensures(*x, (&event,), r),
        trace_ok(g, request_signals(), st, sigs),
    ensures
        fn_trace_ok(event, st, sigs),
    decreases sigs.len(),
{
    if sigs.len() != 0 {
        let r = choose|r: Option<PriorityDispatcherResult>|
            #[trigger] call_ensures(g, (&st.items[st.cursor],), r) && request_signals()(r)
                == sigs.first();
        assert(signal_of(r) == sigs.first());
        assert(call_ensures(st.items[st.cursor], (&event,), r));
        lemma_trace_ok_fns(g, event, step(st, sigs.first()), sigs.drop_first());
    }
}

/// Sorts recorded positions into descending order by repeatedly
/// extracting a maximum.
#[verifier::loop_isolation(false)]
pub(crate) fn sort_descending(v: &mut Vec<usize>)
    ensures
        final(v)@.to_multiset() == old(v)@.to_multiset(),
        forall|a: int, b: int| 0 <= a < b < final(v)@.len() ==> final(v)@[a] >= final(v)@[b],
{
    let ghost orig = v@;
    let mut out: Vec<usize> = Vec::new();
    proof {
        broadcast use vstd::seq_lib::group_to_multiset_ensures;
        broadcast use vstd::multiset::group_multiset_axioms;

        assert(out@.to_multiset().add(v@.to_multiset()) =~= orig.to_multiset());
    }
    while v.len() > 0
        invariant
            out@.to_multiset().add(v@.to_multiset()) == orig.to_multiset(),
            forall|a: int, b: int| 0 <= a < b < out@.len() ==> out@[a] >= out@[b],
            forall|a: int, k: int|
                0 <= a < out@.len() && 0 <= k < v@.len() ==> out@[a] >= v@[k],
        decreases v@.len(),
    {
        let mut m: usize = 0;
        let mut i: usize = 1;
        while i < v.len()
            invariant
                0 < v@.len(),
                m < i,
                i <= v@.len(),
                forall|k: int| 0 <= k < i ==> v@[m as int] >= v@[k],
            decreases v@.len() - i,
        {
            if v[i] > v[m] {
                m = i;
            }
            i = i + 1;
        }
        let ghost pv = v@;
        let x = v.swap_remove(m);
        out.push(x);
        proof {
            broadcast use vstd::seq_lib::group_to_multiset_ensures;
            broadcast use vstd::multiset::group_multiset_axioms;

            crate::walk::lemma_swap_removed_multiset(pv, m as int);
            assert(pv.contains(x));
            assert(pv.to_multiset().count(x) > 0);
            assert(out@.to_multiset().add(v@.to_multiset()) =~= orig.to_multiset());
            assert(forall|k: int| 0 <= k < v@.len() ==> x >= #[trigger] v@[k]);
        }
    }
    proof {
        broadcast use vstd::seq_lib::group_to_multiset_ensures;
        broadcast use vstd::multiset::group_multiset_axioms;

        assert(out@.to_multiset().add(v@.to_multiset()) =~= out@.to_multiset());
    }
    *v = out;
}

/// Drops repeated positions from a descending list, leaving each once.
#[verifier::loop_isolation(false)]
pub(crate) fn dedup_descending(v: &Vec<usize>) -> (r: Vec<usize>)
    requires
        forall|a: int, b: int| 0 <= a < b < v@.len() ==> v@[a] >= v@[b],
    ensures
        crate::walk::strictly_descending(crate::walk::as_ints(r@)),
        forall|k: int| 0 <= k < r@.len() ==> v@.contains(#[trigger] r@[k]),
        forall|k: int| 0 <= k < v@.len() ==> r@.contains(#[trigger] v@[k]),
{
    let mut out: Vec<usize> = Vec::new();
    let mut i: usize = 0;
    while i < v.len()
        invariant
            i <= v@.len(),
            crate::walk::strictly_descending(crate::walk::as_ints(out@)),
            forall|k: int| 0 <= k < out@.len() ==> v@.contains(#[trigger] out@[k]),
            forall|k: int| 0 <= k < i ==> out@.contains(#[trigger] v@[k]),
            i > 0 ==> out@.len() > 0,
            out@.len() > 0 ==> exists|prev: int|
                0 <= prev < i && out@.last() == #[trigger] v@[prev],
        decreases v@.len() - i,
    {
        let x = v[i];
        let ghost before = out@;
        if out.len() == 0 || x < out[out.len() - 1] {
            out.push(x);
            proof {
                assert(out@[out@.len() - 1] == x);
                assert(out@.contains(x));
                assert forall|a: int, b: int|
                    0 <= a < b < out@.len() implies crate::walk::as_ints(out@)[a]
                    > crate::walk::as_ints(out@)[b] by {
                    if b == out@.len() - 1 {
                        assert(out@[a] == before[a]);
                        assert(out@[b] == x);
                        if a < before.len() - 1 {
                            assert(crate::walk::as_ints(before)[a] > crate::walk::as_ints(
                                before,
                            )[before.len() - 1]);
                        }
                    } else {
                        assert(out@[a] == before[a]);
                        assert(out@[b] == before[b]);
                        assert(crate::walk::as_ints(before)[a] > crate::walk::as_ints(before)[b]);
                    }
                }
                assert forall|k: int| 0 <= k < i + 1 implies out@.contains(#[trigger] v@[k]) by {
                    if k < i {
                        assert(before.contains(v@[k]));
                        let w = choose|w: int| 0 <= w < before.len() && before[w] == v@[k];
                        assert(out@[w] == v@[k]);
                        assert(out@.contains(v@[k]));
                    } else {
                        assert(out@.contains(x));
                    }
                }
            }
        } else {
            proof {
                let prev = choose|prev: int| 0 <= prev < i && out@.last() == v@[prev];
                assert(v@[prev] >= x);
                assert(out@.last() == x);
                assert(out@[out@.len() - 1] == x);
                assert(out@.contains(x));
            }
        }
        i = i + 1;
    }
    out
}

/// Removes the listed positions by swap-removal, highest first.
#[verifier::loop_isolation(false)]
pub(crate) fn remove_indices_descending<A>(items: &mut Vec<A>, idxs: &Vec<usize>)
    requires
        crate::walk::strictly_descending(crate::walk::as_ints(idxs@)),
        crate::walk::all_within(crate::walk::as_ints(idxs@), old(items)@.len() as int),
    ensures
        final(items)@ == crate::walk::batch_removed(old(items)@, crate::walk::as_ints(idxs@)),
{
    let ghost c0 = old(items)@;
    let ghost ints = crate::walk::as_ints(idxs@);
    let mut k: usize = 0;
    while k < idxs.len()
        invariant
            k <= idxs@.len(),
            items@ == crate::walk::batch_removed(c0, ints.take(k as int)),
            items@.len() == c0.len() - k,
        decreases idxs@.len() - k,
    {
        proof {
            crate::walk::lemma_descending_bound_at(ints, c0.len() as int, k as int);
        }
        let idx = idxs[k];
        let ghost u = ints.take(k as int);
        proof {
            assert(ints[k as int] == idx as int);
            assert(ints.take(k as int + 1) =~= u.push(idx as int));
            assert(crate::walk::strictly_descending(u.push(idx as int)));
            assert(crate::walk::all_within(u.push(idx as int), c0.len() as int));
            crate::walk::lemma_batch_removed_snoc(c0, u, idx as int);
            crate::walk::lemma_batch_removed_accounting(c0, u.push(idx as int));
        }
        items.swap_remove(idx);
        k = k + 1;
    }
    proof {
        assert(ints.take(idxs@.len() as int) =~= ints);
    }
}

/// Removes every slot whose referent has been dropped: the surviving
/// slots are the mask-selected subsequence of the old ones, in order.
#[verifier::loop_isolation(false)]
pub(crate) fn purge_dead_slots<L>(slots: &mut Vec<WeakSlot<L>>)
    ensures
        exists|keep: Seq<bool>|
            keep.len() == old(slots)@.len() && final(slots)@ == #[trigger] crate::walk::masked(
                old(slots)@,
                keep,
            ),
{
    let mut live: Vec<WeakSlot<L>> = Vec::new();
    let ghost mut keep: Seq<bool> = Seq::empty();
    let mut i: usize = 0;
    while i < slots.len()
        invariant
            i <= slots@.len(),
            keep.len() == i as int,
            live@ == crate::walk::masked(slots@.take(i as int), keep),
        decreases slots@.len() - i,
    {
        let is_live = slots[i].upgrade().is_some();
        proof {
            crate::walk::lemma_masked_snoc(slots@.take(i as int), keep, slots@[i as int], is_live);
            assert(slots@.take(i as int).push(slots@[i as int]) =~= slots@.take(i as int + 1));
            keep = keep.push(is_live);
        }
        if is_live {
            let slot = slots[i].duplicate();
            live.push(slot);
        }
        i = i + 1;
    }
    proof {
        assert(slots@.take(slots@.len() as int) =~= slots@);
    }
    *slots = live;
}

} // verus!
