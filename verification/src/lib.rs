//! A collection of event dispatchers: registries that map event
//! identifiers to listeners and invoke every live listener when a
//! matching event is dispatched.
//!
//! The dispatchers come in four flavours: blocking ([`rc::Dispatcher`]),
//! blocking with priority levels ([`rc::PriorityEventDispatcher`],
//! [`sync::PriorityDispatcher`]), thread-pool parallel
//! ([`sync::ParallelDispatcher`]) and task-based concurrent
//! ([`sync::AsyncDispatcher`]).
//!
//! Every dispatch loop is specified against the model in [`walk`]: the
//! listeners' answers form a trace of control signals, and the contract
//! of each dispatcher says exactly how its collections evolve under
//! that trace.
use vstd::prelude::*;

pub mod parallel;
pub mod rc;
pub mod sync;
pub mod walk;

verus! {

/// Error collection for the dispatchers.
#[derive(Debug)]
pub enum Error {
    /// Building a thread pool failed; holds the builder's report.
    ThreadPoolBuilder(String),
}

impl Error {
    /// The report carried by the error.
    pub fn message(&self) -> (r: &String)
        ensures
            self matches Error::ThreadPoolBuilder(m) && r == m,
    {
        match self {
            Error::ThreadPoolBuilder(m) => m,
        }
    }
}

} // verus!
