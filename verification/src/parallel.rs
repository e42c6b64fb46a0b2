//! The building blocks of the first parallel dispatcher design:
//! per-identifier storage that splits capability-object slots from
//! owned callables, with the request vocabulary the concurrent
//! dispatch model allows.
use vstd::prelude::*;

use crate::rc::RcSlot;

verus! {

/// A request from a listener to its parallel event dispatcher.
///
/// `StopListening` removes the listener from the dispatcher. Opposed
/// to the blocking dispatchers' requests, a listener cannot stop
/// propagation, as the propagation happens in parallel.
#[derive(Debug)]
pub enum ParallelDispatcherRequest {
    /// Stop listening to the dispatcher.
    StopListening,
}

/// Every event receiver needs to implement this trait in order to
/// receive dispatched events, `T` being the event-identifier type.
pub trait ParallelListener<T> {
    /// Called once per dispatch of a listened-to event.
    fn on_event(&mut self, event: &T) -> Option<ParallelDispatcherRequest>;
}

/// Holds both kinds of listener of one event identifier: weakly-held
/// capability objects and owned callables.
#[verifier::reject_recursive_types(L)]
struct ParallelFnsAndTraits<L, F> {
    traits: Vec<RcSlot<L>>,
    fns: Vec<F>,
}

impl<L, F> ParallelFnsAndTraits<L, F> {
    /// A collection holding only the given capability-object slots.
    fn new_with_traits(trait_objects: Vec<RcSlot<L>>) -> (r: Self)
        ensures
            r.traits@ == trait_objects@,
            r.fns@ == Seq::<F>::empty(),
    {
        let r = ParallelFnsAndTraits { traits: trait_objects, fns: Vec::new() };
        proof {
            assert(r.fns@ =~= Seq::<F>::empty());
        }
        r
    }

    /// A collection holding only the given callables.
    fn new_with_fns(fns: Vec<F>) -> (r: Self)
        ensures
            r.traits@ == Seq::<RcSlot<L>>::empty(),
            r.fns@ == fns@,
    {
        let r = ParallelFnsAndTraits { traits: Vec::new(), fns };
        proof {
            assert(r.traits@ =~= Seq::<RcSlot<L>>::empty());
        }
        r
    }
}

/// Errors for thread-pool-building related failures.
#[derive(Debug)]
pub enum BuildError {
    /// The runtime refused the requested number of worker threads;
    /// holds the runtime's report.
    NumThreads(String),
}

impl BuildError {
    /// The report carried by the error.
    pub fn message(&self) -> (r: &String)
        ensures
            self matches BuildError::NumThreads(m) && r == m,
    {
        match self {
            BuildError::NumThreads(m) => m,
        }
    }
}

} // verus!
