//! The blocking dispatcher: listeners are owned by the registry and
//! invoked in registration order.
use vstd::prelude::*;
use vstd::std_specs::cmp::PartialEqSpec;

use crate::rc::{
    execute_dispatcher_requests, listener_trace_ok, request_signals, DispatcherRequest, Listener,
};
use crate::walk::{complete_from, run_from, start, Signal};

verus! {

struct EventEntry<T, L> {
    key: T,
    listeners: Vec<L>,
}

/// In charge of blocking dispatch to all listeners.
///
/// The registry is a sequence of entries, one per registered event
/// identifier, each holding the listeners registered for it in
/// registration order. Lookups compare identifiers with `==`, so every
/// contract that pins *which* entry is touched holds when `T`'s
/// equality obeys its specification ([`PartialEqSpec::obeys_eq_spec`]);
/// what happens to the touched entry is pinned unconditionally.
pub struct Dispatcher<T, L> {
    events: Vec<EventEntry<T, L>>,
}

/// `ks[j]` is the first key of `ks` equal to `e`.
pub open spec fn is_first_key_match<T: PartialEq>(ks: Seq<T>, e: T, j: int) -> bool {
    &&& 0 <= j < ks.len()
    &&& ks[j].eq_spec(&e)
    &&& forall|k: int| 0 <= k < j ==> !(#[trigger] ks[k]).eq_spec(&e)
}

/// No key of `ks` is equal to `e`.
pub open spec fn no_key_match<T: PartialEq>(ks: Seq<T>, e: T) -> bool {
    forall|k: int| 0 <= k < ks.len() ==> !(#[trigger] ks[k]).eq_spec(&e)
}

/// A registration either appends `listener` to the collection at `j`,
/// or, for `j` just past the last entry, appends a new entry for `key`
/// holding only `listener`.
pub open spec fn registered_at<T, L>(
    ks0: Seq<T>,
    cs0: Seq<Seq<L>>,
    ks1: Seq<T>,
    cs1: Seq<Seq<L>>,
    key: T,
    listener: L,
    j: int,
) -> bool {
    if j == ks0.len() {
        ks1 == ks0.push(key) && cs1 == cs0.push(seq![listener])
    } else {
        &&& 0 <= j < ks0.len()
        &&& ks1 == ks0
        &&& cs1 == cs0.update(j, cs0[j].push(listener))
    }
}

/// A dispatch pass hit the collection at `j`: some trace of signals
/// the listeners themselves could produce for `event` ran the walk of
/// that collection to its end, and only that collection changed.
pub open spec fn dispatch_hit<T, L: Listener<T>>(
    cs0: Seq<Seq<L>>,
    cs1: Seq<Seq<L>>,
    event: T,
    j: int,
    sigs: Seq<Signal>,
) -> bool {
    &&& 0 <= j < cs0.len()
    &&& listener_trace_ok(event, start(cs0[j]), sigs)
    &&& complete_from(start(cs0[j]), sigs)
    &&& cs1 == cs0.update(j, run_from(start(cs0[j]), sigs).items)
}

/// A dispatch pass invokes no listener more often than it is
/// registered, and a pass that runs to the end without being stopped
/// invokes every listener registered for the event exactly once: the
/// visited listeners are then exactly the stored ones, each as often
/// as it was registered. Listeners of other identifiers are never
/// invoked — a pass touches one entry alone.
pub proof fn lemma_dispatch_visits_each_listener_once<T, L: Listener<T>>(
    cs0: Seq<Seq<L>>,
    cs1: Seq<Seq<L>>,
    event: T,
    j: int,
    sigs: Seq<Signal>,
)
    requires
        dispatch_hit(cs0, cs1, event, j, sigs),
    ensures
        crate::walk::visited_from(start(cs0[j]), sigs).to_multiset().subset_of(
            cs0[j].to_multiset(),
        ),
        !run_from(start(cs0[j]), sigs).halted ==> crate::walk::visited_from(
            start(cs0[j]),
            sigs,
        ).to_multiset() == cs0[j].to_multiset(),
{
    crate::walk::lemma_visit_accounting(start(cs0[j]), sigs);
    assert(cs0[j].skip(0) =~= cs0[j]);
}

/// A listener that answers `StopListening` is gone afterwards: after
/// any pass, the stored listeners plus the removed ones are exactly
/// the listeners the pass began with — one removal takes out one
/// registration, and nothing else is lost or duplicated. A removed
/// listener is therefore never visited by a later pass, which visits
/// stored listeners only.
pub proof fn lemma_dispatch_removal_accounting<T, L: Listener<T>>(
    cs0: Seq<Seq<L>>,
    cs1: Seq<Seq<L>>,
    event: T,
    j: int,
    sigs: Seq<Signal>,
)
    requires
        dispatch_hit(cs0, cs1, event, j, sigs),
    ensures
        cs1[j].to_multiset().add(
            crate::walk::removed_from(start(cs0[j]), sigs).to_multiset(),
        ) == cs0[j].to_multiset(),
{
    crate::walk::lemma_removal_accounting(start(cs0[j]), sigs);
}

/// Dispatching an identifier with an empty listener collection is a
/// no-op: nothing is invoked and nothing changes.
pub proof fn lemma_dispatch_on_empty_collection_is_noop<T, L: Listener<T>>(
    cs0: Seq<Seq<L>>,
    cs1: Seq<Seq<L>>,
    event: T,
    j: int,
    sigs: Seq<Signal>,
)
    requires
        dispatch_hit(cs0, cs1, event, j, sigs),
        cs0[j].len() == 0,
    ensures
        cs1 == cs0,
        crate::walk::visited_from(start(cs0[j]), sigs) == Seq::<L>::empty(),
{
    crate::walk::lemma_empty_walk_is_noop(cs0[j], sigs);
    assert(cs1 =~= cs0);
}

impl<T: PartialEq, L: Listener<T>> Dispatcher<T, L> {
    /// The registered event identifiers, in registration order.
    pub closed spec fn keys(self) -> Seq<T> {
        self.events@.map_values(|e: EventEntry<T, L>| e.key)
    }

    /// The listener collections, one per registered identifier.
    pub closed spec fn collections(self) -> Seq<Seq<L>> {
        self.events@.map_values(|e: EventEntry<T, L>| e.listeners@)
    }

    /// There is exactly one listener collection per registered
    /// identifier.
    pub proof fn lemma_registry_consistent(self)
        ensures
            self.keys().len() == self.collections().len(),
    {
    }

    /// Create a new blocking dispatcher with no registrations.
    #[must_use]
    pub fn new() -> (d: Self)
        ensures
            d.keys() == Seq::<T>::empty(),
            d.collections() == Seq::<Seq<L>>::empty(),
    {
        let d = Self { events: Vec::new() };
        proof {
            assert(d.keys() =~= Seq::<T>::empty());
            assert(d.collections() =~= Seq::<Seq<L>>::empty());
        }
        d
    }

    /// The position of the first entry whose key equals `event`.
    fn position_of(&self, event: &T) -> (r: Option<usize>)
        ensures
            r matches Some(j) ==> j < self.keys().len(),
            T::obeys_eq_spec() ==> match r {
                Some(j) => is_first_key_match(self.keys(), *event, j as int),
                None => no_key_match(self.keys(), *event),
            },
    {
        let mut i: usize = 0;
        while i < self.events.len()
            invariant
                i <= self.events.len(),
                T::obeys_eq_spec() ==> forall|k: int|
                    0 <= k < i ==> !(#[trigger] self.keys()[k]).eq_spec(event),
            decreases self.events.len() - i,
        {
            if self.events[i].key == *event {
                return Some(i);
            }
            i = i + 1;
        }
        None
    }

    /// Adds a [`Listener`] to listen for `event_key`: it is appended
    /// to the collection of the first entry whose key equals
    /// `event_key`, or to a fresh entry appended for it. Registration
    /// never invokes a listener.
    pub fn add_listener(&mut self, event_key: T, listener: L)
        ensures
            exists|j: int|
                #[trigger] registered_at(
                    old(self).keys(),
                    old(self).collections(),
                    final(self).keys(),
                    final(self).collections(),
                    event_key,
                    listener,
                    j,
                ),
            T::obeys_eq_spec() ==> forall|j: int|
                is_first_key_match(old(self).keys(), event_key, j) ==> registered_at(
                    old(self).keys(),
                    old(self).collections(),
                    final(self).keys(),
                    final(self).collections(),
                    event_key,
                    listener,
                    j,
                ),
            T::obeys_eq_spec() && no_key_match(old(self).keys(), event_key) ==> registered_at(
                old(self).keys(),
                old(self).collections(),
                final(self).keys(),
                final(self).collections(),
                event_key,
                listener,
                old(self).keys().len() as int,
            ),
    {
        let ghost ks0 = self.keys();
        let ghost cs0 = self.collections();
        match self.position_of(&event_key) {
            Some(j) => {
                let entry = &mut self.events[j];
                entry.listeners.push(listener);
                proof {
                    assert(self.keys() =~= ks0);
                    assert(self.collections() =~= cs0.update(j as int, cs0[j as int].push(
                        listener,
                    )));
                    assert(registered_at(
                        ks0,
                        cs0,
                        self.keys(),
                        self.collections(),
                        event_key,
                        listener,
                        j as int,
                    ));
                    assert(T::obeys_eq_spec() ==> is_first_key_match(ks0, event_key, j as int));
                }
            },
            None => {
                let mut ls: Vec<L> = Vec::new();
                ls.push(listener);
                self.events.push(EventEntry { key: event_key, listeners: ls });
                proof {
                    assert(self.keys() =~= ks0.push(event_key));
                    assert(self.collections() =~= cs0.push(seq![listener]));
                    assert(registered_at(
                        ks0,
                        cs0,
                        self.keys(),
                        self.collections(),
                        event_key,
                        listener,
                        ks0.len() as int,
                    ));
                }
            },
        }
        proof {
            assert forall|j: int|
                T::obeys_eq_spec() && is_first_key_match(ks0, event_key, j) implies registered_at(
                ks0,
                cs0,
                self.keys(),
                self.collections(),
                event_key,
                listener,
                j,
            ) by {}
        }
    }

    /// All listeners listening to `event_identifier` are invoked once
    /// each, in storage order, through their [`Listener::on_event`]
    /// method; a listener answering `StopListening` is removed by
    /// swap-removal, and one answering a propagation-stopping request
    /// ends the pass. Identifiers other than `event_identifier` and
    /// their listeners are untouched.
    pub fn dispatch_event(&mut self, event_identifier: &T)
        ensures
            final(self).keys() == old(self).keys(),
            (exists|j: int, sigs: Seq<Signal>|
                #[trigger] dispatch_hit(
                    old(self).collections(),
                    final(self).collections(),
                    *event_identifier,
                    j,
                    sigs,
                )) || final(self).collections() == old(self).collections(),
            T::obeys_eq_spec() && no_key_match(old(self).keys(), *event_identifier)
                ==> final(self).collections() == old(self).collections(),
            T::obeys_eq_spec() ==> forall|j: int|
                is_first_key_match(old(self).keys(), *event_identifier, j) ==> exists|
                    sigs: Seq<Signal>,
                |
                    #[trigger] dispatch_hit(
                        old(self).collections(),
                        final(self).collections(),
                        *event_identifier,
                        j,
                        sigs,
                    ),
    {
        let ghost ks0 = self.keys();
        let ghost cs0 = self.collections();
        match self.position_of(event_identifier) {
            Some(j) => {
                let c = |l: &L| -> (r: Option<DispatcherRequest>)
                    ensures
                        call_ensures(L::on_event, (l, event_identifier), r),
                    { l.on_event(event_identifier) };
                assert(forall|x: &L| #[trigger] call_requires(c, (x,)));
                let entry = &mut self.events[j];
                assert(entry.listeners@ == cs0[j as int]);
                execute_dispatcher_requests(&mut entry.listeners, c);
                let ghost ls1 = entry.listeners@;
                let ghost k1 = entry.key;
                proof {
                    assert(k1 == ks0[j as int]);
                    let sigs = choose|sigs: Seq<Signal>|
                        {
                            &&& crate::walk::trace_ok(
                                c,
                                request_signals(),
                                start(cs0[j as int]),
                                sigs,
                            )
                            &&& complete_from(start(cs0[j as int]), sigs)
                            &&& ls1 == run_from(start(cs0[j as int]), sigs).items
                        };
                    crate::rc::lemma_trace_ok_on_event(
                        c,
                        *event_identifier,
                        start(cs0[j as int]),
                        sigs,
                    );
                    assert(self.keys() =~= ks0);
                    assert(self.collections() =~= cs0.update(
                        j as int,
                        run_from(start(cs0[j as int]), sigs).items,
                    ));
                    assert(dispatch_hit(
                        cs0,
                        self.collections(),
                        *event_identifier,
                        j as int,
                        sigs,
                    ));
                }
            },
            None => {
                proof {
                    assert(self.collections() == cs0);
                }
            },
        }
    }
}

} // verus!
