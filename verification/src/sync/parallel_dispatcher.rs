//! The parallel dispatcher: every listener of the matching identifier
//! is invoked concurrently on a thread pool; removals are recorded
//! during the fan-out and applied afterwards, highest index first, so
//! that every recorded index still names its original slot.
use vstd::prelude::*;
use vstd::std_specs::cmp::PartialEqSpec;

use crate::walk::{all_within, as_ints, batch_removed, strictly_descending};
use crate::sync::{
    dedup_descending, remove_indices_descending, sort_descending, ParallelDispatchResult,
    ParallelListener,
};
use crate::Error;

verus! {

/// Specification for `rayon::ThreadPool`: an opaque handle to a set
/// of worker threads.
#[verifier::external_type_specification]
#[verifier::external_body]
pub struct ExThreadPool(rayon::ThreadPool);

/// Specification for `rayon::ThreadPoolBuildError`: an opaque report
/// of why a thread pool could not be built.
#[verifier::external_type_specification]
#[verifier::external_body]
pub struct ExThreadPoolBuildError(rayon::ThreadPoolBuildError);

/// Relies on `rayon::ThreadPoolBuilder`: `new().num_threads(n).build()`
/// yields a pool of `n` worker threads, or the builder's error when
/// the pool cannot be brought up. Which of the two happens depends on
/// the operating system, so nothing is promised of the outcome.
#[verifier::external_body]
fn build_pool(num_threads: usize) -> Result<rayon::ThreadPool, rayon::ThreadPoolBuildError> {
    rayon::ThreadPoolBuilder::new().num_threads(num_threads).build()
}

/// Relies on `rayon::ThreadPoolBuildError`'s `Display` implementation
/// for the human-readable report carried inside [`Error`].
#[verifier::external_body]
fn build_error_message(error: &rayon::ThreadPoolBuildError) -> String {
    format!("{}", error)
}

/// Whether a listener's answer asks for its removal.
pub open spec fn asks_removal(r: Option<ParallelDispatchResult>) -> bool {
    r is Some
}

/// True exactly when the listener's answer asks for its removal.
fn stop_requested(r: &Option<ParallelDispatchResult>) -> (b: bool)
    ensures
        b == asks_removal(*r),
{
    match r {
        Some(ParallelDispatchResult::StopListening) => true,
        None => false,
    }
}

/// Relies on `rayon::ThreadPool::install` and rayon's parallel
/// iterators: runs [`ParallelListener::on_event`] once for every
/// listener, concurrently on the pool's workers, and returns the
/// positions of exactly those listeners that asked to stop listening
/// — each position at most once, in completion order.
#[verifier::external_body]
fn fan_out<T: Sync, L: ParallelListener<T> + Sync>(
    pool: &rayon::ThreadPool,
    listeners: &Vec<L>,
    event: &T,
) -> (recorded: Vec<usize>)
    ensures
        forall|k: int| 0 <= k < recorded@.len() ==> #[trigger] recorded@[k] < listeners@.len(),
        forall|k1: int, k2: int|
            0 <= k1 < k2 < recorded@.len() ==> recorded@[k1] != recorded@[k2],
        forall|k: int| #![trigger recorded@[k]]
            0 <= k < recorded@.len() ==> exists|r: Option<ParallelDispatchResult>|
                #[trigger] call_ensures(
                    L::on_event,
                    (&listeners@[recorded@[k] as int], event),
                    r,
                ) && asks_removal(r),
        forall|i: int| #![trigger listeners@[i]]
            0 <= i < listeners@.len() && (forall|k: int|
                0 <= k < recorded@.len() ==> #[trigger] recorded@[k] != i) ==> exists|
                r: Option<ParallelDispatchResult>,
            |
                #[trigger] call_ensures(L::on_event, (&listeners@[i], event), r) && !asks_removal(
                    r,
                ),
{
    let to_remove = parking_lot::Mutex::new(Vec::new());
    pool.install(|| {
        rayon::iter::ParallelIterator::for_each(
            rayon::iter::IndexedParallelIterator::enumerate(
                rayon::iter::IntoParallelRefIterator::par_iter(&listeners[..]),
            ),
            |(index, listener): (usize, &L)| {
                if stop_requested(&listener.on_event(event)) {
                    to_remove.lock().push(index);
                }
            },
        )
    });
    to_remove.into_inner()
}

struct ParallelEntry<T, L> {
    key: T,
    listeners: Vec<L>,
}

/// In charge of parallel dispatch to all listeners: one pass invokes
/// every listener of the matching identifier concurrently across a
/// worker pool owned by the dispatcher.
///
/// Lookups compare identifiers with `==`, so every contract that pins
/// *which* entry is touched holds when `T`'s equality obeys its
/// specification; what happens to the touched entry is pinned
/// unconditionally.
pub struct ParallelDispatcher<T, L> {
    events: Vec<ParallelEntry<T, L>>,
    thread_pool: rayon::ThreadPool,
}

/// `ks[j]` is the first key of `ks` equal to `e`.
pub open spec fn is_first_key_match<T: PartialEq>(ks: Seq<T>, e: T, j: int) -> bool {
    &&& 0 <= j < ks.len()
    &&& ks[j].eq_spec(&e)
    &&& forall|k: int| 0 <= k < j ==> !(#[trigger] ks[k]).eq_spec(&e)
}

/// No key of `ks` is equal to `e`.
pub open spec fn no_key_match<T: PartialEq>(ks: Seq<T>, e: T) -> bool {
    forall|k: int| 0 <= k < ks.len() ==> !(#[trigger] ks[k]).eq_spec(&e)
}

/// A registration appends `listener` to the collection at `j`, or,
/// for `j` just past the last entry, appends a new entry for `key`
/// holding only `listener`.
pub open spec fn registered_at<T, L>(
    ks0: Seq<T>,
    cs0: Seq<Seq<L>>,
    ks1: Seq<T>,
    cs1: Seq<Seq<L>>,
    key: T,
    listener: L,
    j: int,
) -> bool {
    if j == ks0.len() {
        ks1 == ks0.push(key) && cs1 == cs0.push(seq![listener])
    } else {
        &&& 0 <= j < ks0.len()
        &&& ks1 == ks0
        &&& cs1 == cs0.update(j, cs0[j].push(listener))
    }
}

/// A parallel dispatch pass hit the collection at `j`: every listener
/// was invoked once, `idxs` records — highest first — the positions of
/// exactly those listeners whose answer asked for removal, and those
/// positions were batch-removed. No other entry changed.
pub open spec fn parallel_dispatch_hit<T, L: ParallelListener<T>>(
    cs0: Seq<Seq<L>>,
    cs1: Seq<Seq<L>>,
    event: T,
    j: int,
    idxs: Seq<int>,
) -> bool {
    &&& 0 <= j < cs0.len()
    &&& strictly_descending(idxs)
    &&& all_within(idxs, cs0[j].len() as int)
    &&& forall|k: int| #![trigger idxs[k]]
        0 <= k < idxs.len() ==> exists|r: Option<ParallelDispatchResult>|
            #[trigger] call_ensures(L::on_event, (&cs0[j][idxs[k]], &event), r) && asks_removal(r)
    &&& forall|i: int| #![trigger cs0[j][i]]
        0 <= i < cs0[j].len() && !idxs.contains(i) ==> exists|
            r: Option<ParallelDispatchResult>,
        |
            #[trigger] call_ensures(L::on_event, (&cs0[j][i], &event), r) && !asks_removal(r)
    &&& cs1 == cs0.update(j, batch_removed(cs0[j], idxs))
}

/// A parallel pass removes exactly the listeners that asked to stop
/// listening, each once: after the pass, the stored listeners plus the
/// listeners standing at the recorded positions are exactly the
/// listeners the pass began with — no double removal, no loss of a
/// listener that wanted to stay, regardless of the completion order of
/// the concurrent invocations.
pub proof fn lemma_parallel_removal_accounting<T, L: ParallelListener<T>>(
    cs0: Seq<Seq<L>>,
    cs1: Seq<Seq<L>>,
    event: T,
    j: int,
    idxs: Seq<int>,
)
    requires
        parallel_dispatch_hit(cs0, cs1, event, j, idxs),
    ensures
        cs1[j].to_multiset().add(crate::walk::picked(cs0[j], idxs).to_multiset())
            == cs0[j].to_multiset(),
        cs1[j].len() == cs0[j].len() - idxs.len(),
{
    crate::walk::lemma_batch_removed_accounting(cs0[j], idxs);
}

impl<T: PartialEq + Sync, L: ParallelListener<T> + Sync> ParallelDispatcher<T, L> {
    /// The registered event identifiers, in registration order.
    pub closed spec fn keys(self) -> Seq<T> {
        self.events@.map_values(|e: ParallelEntry<T, L>| e.key)
    }

    /// The listener collections, one per registered identifier.
    pub closed spec fn collections(self) -> Seq<Seq<L>> {
        self.events@.map_values(|e: ParallelEntry<T, L>| e.listeners@)
    }

    /// There is exactly one listener collection per registered
    /// identifier.
    pub proof fn lemma_registry_consistent(self)
        ensures
            self.keys().len() == self.collections().len(),
    {
    }

    /// Creates a parallel dispatcher whose own pool has `num_threads`
    /// worker threads, with no registrations. When the pool cannot be
    /// brought up, the builder's report is returned instead and no
    /// dispatcher exists.
    pub fn new(num_threads: usize) -> (r: Result<Self, Error>)
        ensures
            r matches Ok(d) ==> d.keys() == Seq::<T>::empty() && d.collections() == Seq::<
                Seq<L>,
            >::empty(),
            r matches Err(e) ==> e is ThreadPoolBuilder,
    {
        match build_pool(num_threads) {
            Ok(pool) => {
                let d = ParallelDispatcher { events: Vec::new(), thread_pool: pool };
                proof {
                    assert(d.keys() =~= Seq::<T>::empty());
                    assert(d.collections() =~= Seq::<Seq<L>>::empty());
                }
                Ok(d)
            },
            Err(error) => Err(Error::ThreadPoolBuilder(build_error_message(&error))),
        }
    }

    /// Replaces the dispatcher's pool by a fresh one with `num`
    /// worker threads. When the new pool cannot be brought up, the
    /// builder's report is returned and the prior pool, with every
    /// registration, stays in place.
    pub fn num_threads(&mut self, num: usize) -> (r: Result<(), Error>)
        ensures
            final(self).keys() == old(self).keys(),
            final(self).collections() == old(self).collections(),
            r matches Err(e) ==> e is ThreadPoolBuilder,
    {
        match build_pool(num) {
            Ok(pool) => {
                self.thread_pool = pool;
                proof {
                    assert(self.keys() =~= old(self).keys());
                    assert(self.collections() =~= old(self).collections());
                }
                Ok(())
            },
            Err(error) => Err(Error::ThreadPoolBuilder(build_error_message(&error))),
        }
    }

    /// The position of the first entry whose key equals `event`.
    fn position_of(&self, event: &T) -> (r: Option<usize>)
        ensures
            r matches Some(j) ==> j < self.keys().len(),
            T::obeys_eq_spec() ==> match r {
                Some(j) => is_first_key_match(self.keys(), *event, j as int),
                None => no_key_match(self.keys(), *event),
            },
    {
        let mut i: usize = 0;
        while i < self.events.len()
            invariant
                i <= self.events.len(),
                T::obeys_eq_spec() ==> forall|k: int|
                    0 <= k < i ==> !(#[trigger] self.keys()[k]).eq_spec(event),
            decreases self.events.len() - i,
        {
            if self.events[i].key == *event {
                return Some(i);
            }
            i = i + 1;
        }
        None
    }

    /// Adds a [`ParallelListener`] to listen for `event_key`: it is
    /// appended to the collection of the first entry whose key equals
    /// `event_key`, or to a fresh entry. Registration never invokes a
    /// listener.
    pub fn add_listener(&mut self, event_key: T, listener: L)
        ensures
            exists|j: int|
                #[trigger] registered_at(
                    old(self).keys(),
                    old(self).collections(),
                    final(self).keys(),
                    final(self).collections(),
                    event_key,
                    listener,
                    j,
                ),
            T::obeys_eq_spec() ==> forall|j: int|
                is_first_key_match(old(self).keys(), event_key, j) ==> registered_at(
                    old(self).keys(),
                    old(self).collections(),
                    final(self).keys(),
                    final(self).collections(),
                    event_key,
                    listener,
                    j,
                ),
            T::obeys_eq_spec() && no_key_match(old(self).keys(), event_key) ==> registered_at(
                old(self).keys(),
                old(self).collections(),
                final(self).keys(),
                final(self).collections(),
                event_key,
                listener,
                old(self).keys().len() as int,
            ),
    {
        let ghost ks0 = self.keys();
        let ghost cs0 = self.collections();
        match self.position_of(&event_key) {
            Some(j) => {
                let entry = &mut self.events[j];
                entry.listeners.push(listener);
                proof {
                    assert(self.keys() =~= ks0);
                    assert(self.collections() =~= cs0.update(j as int, cs0[j as int].push(
                        listener,
                    )));
                    assert(registered_at(
                        ks0,
                        cs0,
                        self.keys(),
                        self.collections(),
                        event_key,
                        listener,
                        j as int,
                    ));
                }
            },
            None => {
                let mut ls: Vec<L> = Vec::new();
                ls.push(listener);
                self.events.push(ParallelEntry { key: event_key, listeners: ls });
                proof {
                    assert(self.keys() =~= ks0.push(event_key));
                    assert(self.collections() =~= cs0.push(seq![listener]));
                    assert(registered_at(
                        ks0,
                        cs0,
                        self.keys(),
                        self.collections(),
                        event_key,
                        listener,
                        ks0.len() as int,
                    ));
                }
            },
        }
    }

    /// Every listener registered for `event_identifier` is invoked
    /// exactly once, concurrently across the dispatcher's pool; the
    /// pass blocks until all invocations finish. Exactly the listeners
    /// that answered `StopListening` are then removed, highest
    /// recorded position first. Other identifiers are untouched.
    pub fn dispatch_event(&mut self, event_identifier: &T)
        ensures
            final(self).keys() == old(self).keys(),
            (exists|j: int, idxs: Seq<int>|
                #[trigger] parallel_dispatch_hit(
                    old(self).collections(),
                    final(self).collections(),
                    *event_identifier,
                    j,
                    idxs,
                )) || final(self).collections() == old(self).collections(),
            T::obeys_eq_spec() && no_key_match(old(self).keys(), *event_identifier)
                ==> final(self).collections() == old(self).collections(),
            T::obeys_eq_spec() ==> forall|j: int|
                is_first_key_match(old(self).keys(), *event_identifier, j) ==> exists|
                    idxs: Seq<int>,
                |
                    #[trigger] parallel_dispatch_hit(
                        old(self).collections(),
                        final(self).collections(),
                        *event_identifier,
                        j,
                        idxs,
                    ),
    {
        let ghost ks0 = self.keys();
        let ghost cs0 = self.collections();
        match self.position_of(event_identifier) {
            Some(j) => {
                let mut recorded = fan_out(
                    &self.thread_pool,
                    &self.events[j].listeners,
                    event_identifier,
                );
                let ghost rec0 = recorded@;
                sort_descending(&mut recorded);
                let ghost sorted = recorded@;
                let recorded = dedup_descending(&recorded);
                let ghost used = as_ints(recorded@);
                proof {
                    broadcast use vstd::seq_lib::group_to_multiset_ensures;
                    broadcast use vstd::multiset::group_multiset_axioms;

                    assert forall|x: usize|
                        #![trigger sorted.contains(x)]
                        #![trigger rec0.contains(x)]
                        sorted.contains(x) <==> rec0.contains(x) by {
                        assert(sorted.to_multiset().count(x) == rec0.to_multiset().count(x));
                    }
                    assert(forall|k: int|
                        0 <= k < used.len() ==> rec0.contains(#[trigger] recorded@[k]));
                    assert forall|k: int| 0 <= k < used.len() implies 0 <= #[trigger] used[k]
                        < cs0[j as int].len() by {
                        let w = choose|w: int| 0 <= w < rec0.len() && rec0[w] == recorded@[k];
                        assert(rec0[w] < cs0[j as int].len());
                    }
                    assert(all_within(used, cs0[j as int].len() as int));
                }
                let entry = &mut self.events[j];
                remove_indices_descending(&mut entry.listeners, &recorded);
                let ghost after = entry.listeners@;
                proof {
                    broadcast use vstd::seq_lib::group_to_multiset_ensures;

                    assert(self.keys() =~= ks0);
                    assert(self.collections() =~= cs0.update(j as int, after));
                    assert forall|k: int| #![trigger used[k]] 0 <= k < used.len() implies exists|
                        r: Option<ParallelDispatchResult>,
                    |
                        #[trigger] call_ensures(
                            L::on_event,
                            (&cs0[j as int][used[k]], event_identifier),
                            r,
                        ) && asks_removal(r) by {
                        let w = choose|w: int| 0 <= w < rec0.len() && rec0[w] == recorded@[k];
                        assert(rec0[w] as int == used[k]);
                    }
                    assert forall|i: int| #![trigger cs0[j as int][i]]
                        0 <= i < cs0[j as int].len() && !used.contains(i) implies exists|
                        r: Option<ParallelDispatchResult>,
                    |
                        #[trigger] call_ensures(
                            L::on_event,
                            (&cs0[j as int][i], event_identifier),
                            r,
                        ) && !asks_removal(r) by {
                        assert forall|k: int| 0 <= k < rec0.len() implies #[trigger] rec0[k]
                            != i by {
                            if rec0[k] == i {
                                assert(sorted.contains(rec0[k]));
                                assert(recorded@.contains(rec0[k]));
                                let w = choose|w: int|
                                    0 <= w < recorded@.len() && recorded@[w] == rec0[k];
                                assert(used[w] == i);
                                assert(used.contains(i));
                            }
                        }
                    }
                    assert(parallel_dispatch_hit(
                        cs0,
                        self.collections(),
                        *event_identifier,
                        j as int,
                        used,
                    ));
                }
            },
            None => {
                proof {
                    assert(self.collections() == cs0);
                }
            },
        }
    }
}

} // verus!
