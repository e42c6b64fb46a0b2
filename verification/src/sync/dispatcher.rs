//! The blocking thread-safe dispatcher: capability-object listeners
//! are held through non-owning references, callables are owned
//! outright.
use vstd::prelude::*;
use vstd::std_specs::cmp::PartialEqSpec;

use crate::sync::{
    execute_sync_dispatcher_requests, fn_trace_ok, purge_dead_slots, request_signals,
    slot_trace_ok, ExecuteRequestsResult, Listener, PriorityDispatcherResult, WeakSlot,
};
use crate::walk::{complete_from, masked, run_from, start, Signal};

verus! {

#[verifier::reject_recursive_types(L)]
struct SlotEntry<T, L, F> {
    key: T,
    traits: Vec<WeakSlot<L>>,
    fns: Vec<F>,
}

/// In charge of blocking dispatch to all listeners of one event
/// identifier: first the capability-object slots, then the owned
/// callables — an externally observable order, kept fixed.
///
/// Capability-object listeners are registered from a strong reference
/// but held through a non-owning one: the dispatcher never keeps a
/// listener alive, and a slot whose referent has been dropped is never
/// invoked again and is purged by the end of the next pass over its
/// identifier.
///
/// Lookups compare identifiers with `==`, so every contract that pins
/// *which* entry is touched holds when `T`'s equality obeys its
/// specification; what happens to the touched entry is pinned
/// unconditionally.
#[verifier::reject_recursive_types(L)]
pub struct EventDispatcher<T, L, F> where F: Fn(&T) -> Option<PriorityDispatcherResult> {
    events: Vec<SlotEntry<T, L, F>>,
}

/// `ks[j]` is the first key of `ks` equal to `e`.
pub open spec fn is_first_key_match<T: PartialEq>(ks: Seq<T>, e: T, j: int) -> bool {
    &&& 0 <= j < ks.len()
    &&& ks[j].eq_spec(&e)
    &&& forall|k: int| 0 <= k < j ==> !(#[trigger] ks[k]).eq_spec(&e)
}

/// No key of `ks` is equal to `e`.
pub open spec fn no_key_match<T: PartialEq>(ks: Seq<T>, e: T) -> bool {
    forall|k: int| 0 <= k < ks.len() ==> !(#[trigger] ks[k]).eq_spec(&e)
}

/// A capability-object registration appends one slot to the object
/// collection at `j`, or, for `j` just past the last entry, appends a
/// fresh entry for `key` holding only that slot.
pub open spec fn slot_registered_at<T, L, F>(
    ks0: Seq<T>,
    tc0: Seq<Seq<WeakSlot<L>>>,
    fc0: Seq<Seq<F>>,
    ks1: Seq<T>,
    tc1: Seq<Seq<WeakSlot<L>>>,
    fc1: Seq<Seq<F>>,
    key: T,
    slot: WeakSlot<L>,
    j: int,
) -> bool {
    if j == ks0.len() {
        &&& ks1 == ks0.push(key)
        &&& tc1 == tc0.push(seq![slot])
        &&& fc1 == fc0.push(Seq::<F>::empty())
    } else {
        &&& 0 <= j < ks0.len()
        &&& ks1 == ks0
        &&& tc1 == tc0.update(j, tc0[j].push(slot))
        &&& fc1 == fc0
    }
}

/// A callable registration appends `function` to the callable
/// collection at `j`, or, for `j` just past the last entry, appends a
/// fresh entry for `key` holding only `function`.
pub open spec fn fn_registered_at<T, L, F>(
    ks0: Seq<T>,
    tc0: Seq<Seq<WeakSlot<L>>>,
    fc0: Seq<Seq<F>>,
    ks1: Seq<T>,
    tc1: Seq<Seq<WeakSlot<L>>>,
    fc1: Seq<Seq<F>>,
    key: T,
    function: F,
    j: int,
) -> bool {
    if j == ks0.len() {
        &&& ks1 == ks0.push(key)
        &&& tc1 == tc0.push(Seq::<WeakSlot<L>>::empty())
        &&& fc1 == fc0.push(seq![function])
    } else {
        &&& 0 <= j < ks0.len()
        &&& ks1 == ks0
        &&& tc1 == tc0
        &&& fc1 == fc0.update(j, fc0[j].push(function))
    }
}

/// A dispatch pass hit entry `j`: the object slots were walked under a
/// trace the listeners could produce (a dead slot answering `Keep`),
/// then — unless that walk was halted — the callables were walked
/// under a trace they could produce, and finally the dead object slots
/// were purged. No other entry changed.
pub open spec fn dispatch_hit<T, L: Listener<T>, F: Fn(&T) -> Option<PriorityDispatcherResult>>(
    tc0: Seq<Seq<WeakSlot<L>>>,
    fc0: Seq<Seq<F>>,
    tc1: Seq<Seq<WeakSlot<L>>>,
    fc1: Seq<Seq<F>>,
    event: T,
    j: int,
    sigs_t: Seq<Signal>,
    keep: Seq<bool>,
    sigs_f: Seq<Signal>,
) -> bool {
    &&& 0 <= j < tc0.len()
    &&& 0 <= j < fc0.len()
    &&& slot_trace_ok(event, start(tc0[j]), sigs_t)
    &&& complete_from(start(tc0[j]), sigs_t)
    &&& keep.len() == run_from(start(tc0[j]), sigs_t).items.len()
    &&& tc1 == tc0.update(j, masked(run_from(start(tc0[j]), sigs_t).items, keep))
    &&& if run_from(start(tc0[j]), sigs_t).halted {
        sigs_f.len() == 0 && fc1 == fc0
    } else {
        &&& fn_trace_ok(event, start(fc0[j]), sigs_f)
        &&& complete_from(start(fc0[j]), sigs_f)
        &&& fc1 == fc0.update(j, run_from(start(fc0[j]), sigs_f).items)
    }
}

impl<T: PartialEq, L: Listener<T>, F: Fn(&T) -> Option<PriorityDispatcherResult>> EventDispatcher<
    T,
    L,
    F,
> {
    /// The registered event identifiers, in registration order.
    pub closed spec fn keys(self) -> Seq<T> {
        self.events@.map_values(|e: SlotEntry<T, L, F>| e.key)
    }

    /// The capability-object slots, one collection per identifier.
    pub closed spec fn slot_collections(self) -> Seq<Seq<WeakSlot<L>>> {
        self.events@.map_values(|e: SlotEntry<T, L, F>| e.traits@)
    }

    /// The owned callables, one collection per identifier.
    pub closed spec fn fn_collections(self) -> Seq<Seq<F>> {
        self.events@.map_values(|e: SlotEntry<T, L, F>| e.fns@)
    }

    /// The dispatcher's well-formedness: every stored callable can be
    /// applied to every event. Construction establishes it, every
    /// method preserves it, and dispatch relies on it when it invokes
    /// the stored callables.
    pub open spec fn wf(self) -> bool {
        forall|j: int, k: int, x: &T|
            0 <= j < self.fn_collections().len() && 0 <= k < self.fn_collections()[j].len()
                ==> #[trigger] call_requires(self.fn_collections()[j][k], (x,))
    }

    /// There is exactly one slot collection and one callable
    /// collection per registered identifier.
    pub proof fn lemma_registry_consistent(self)
        ensures
            self.keys().len() == self.slot_collections().len(),
            self.keys().len() == self.fn_collections().len(),
    {
    }

    /// The position of the first entry whose key equals `event`.
    fn position_of(&self, event: &T) -> (r: Option<usize>)
        ensures
            r matches Some(j) ==> j < self.keys().len(),
            T::obeys_eq_spec() ==> match r {
                Some(j) => is_first_key_match(self.keys(), *event, j as int),
                None => no_key_match(self.keys(), *event),
            },
    {
        let mut i: usize = 0;
        while i < self.events.len()
            invariant
                i <= self.events.len(),
                T::obeys_eq_spec() ==> forall|k: int|
                    0 <= k < i ==> !(#[trigger] self.keys()[k]).eq_spec(event),
            decreases self.events.len() - i,
        {
            if self.events[i].key == *event {
                return Some(i);
            }
            i = i + 1;
        }
        None
    }

    /// Adds a [`Listener`] to listen for `event_identifier`: a
    /// non-owning slot for it is appended to the object collection of
    /// the first entry whose key equals `event_identifier`, or to a
    /// fresh entry. Registration never invokes a listener, and the
    /// dispatcher does not keep `listener` alive.
    pub fn add_listener(&mut self, event_identifier: T, listener: &std::sync::Arc<L>)
        requires
            old(self).wf(),
        ensures
            final(self).wf(),
            exists|j: int, slot: WeakSlot<L>|
                #[trigger] slot_registered_at(
                    old(self).keys(),
                    old(self).slot_collections(),
                    old(self).fn_collections(),
                    final(self).keys(),
                    final(self).slot_collections(),
                    final(self).fn_collections(),
                    event_identifier,
                    slot,
                    j,
                ),
            T::obeys_eq_spec() ==> forall|j: int|
                is_first_key_match(old(self).keys(), event_identifier, j) ==> exists|
                    slot: WeakSlot<L>,
                |
                    #[trigger] slot_registered_at(
                        old(self).keys(),
                        old(self).slot_collections(),
                        old(self).fn_collections(),
                        final(self).keys(),
                        final(self).slot_collections(),
                        final(self).fn_collections(),
                        event_identifier,
                        slot,
                        j,
                    ),
            T::obeys_eq_spec() && no_key_match(old(self).keys(), event_identifier) ==> exists|
                slot: WeakSlot<L>,
            |
                #[trigger] slot_registered_at(
                    old(self).keys(),
                    old(self).slot_collections(),
                    old(self).fn_collections(),
                    final(self).keys(),
                    final(self).slot_collections(),
                    final(self).fn_collections(),
                    event_identifier,
                    slot,
                    old(self).keys().len() as int,
                ),
    {
        let ghost ks0 = self.keys();
        let ghost tc0 = self.slot_collections();
        let ghost fc0 = self.fn_collections();
        let slot = WeakSlot::of(listener);
        let ghost s = slot;
        match self.position_of(&event_identifier) {
            Some(j) => {
                let entry = &mut self.events[j];
                entry.traits.push(slot);
                proof {
                    assert(self.keys() =~= ks0);
                    assert(self.fn_collections() =~= fc0);
                    assert(self.slot_collections() =~= tc0.update(j as int, tc0[j as int].push(s)));
                    assert(slot_registered_at(
                        ks0,
                        tc0,
                        fc0,
                        self.keys(),
                        self.slot_collections(),
                        self.fn_collections(),
                        event_identifier,
                        s,
                        j as int,
                    ));
                }
            },
            None => {
                let mut ts: Vec<WeakSlot<L>> = Vec::new();
                ts.push(slot);
                self.events.push(SlotEntry { key: event_identifier, traits: ts, fns: Vec::new() });
                proof {
                    assert(self.keys() =~= ks0.push(event_identifier));
                    assert(self.slot_collections() =~= tc0.push(seq![s]));
                    assert(self.fn_collections() =~= fc0.push(Seq::<F>::empty()));
                    assert(slot_registered_at(
                        ks0,
                        tc0,
                        fc0,
                        self.keys(),
                        self.slot_collections(),
                        self.fn_collections(),
                        event_identifier,
                        s,
                        ks0.len() as int,
                    ));
                }
            },
        }
    }

    /// Adds a callable to listen for `event_identifier`: it is
    /// appended to the callable collection of the first entry whose
    /// key equals `event_identifier`, or to a fresh entry. The
    /// dispatcher owns the callable outright. Registration never
    /// invokes it.
    pub fn add_fn(&mut self, event_identifier: T, function: F)
        requires
            old(self).wf(),
            forall|x: &T| #[trigger] call_requires(function, (x,)),
        ensures
            final(self).wf(),
            exists|j: int|
                #[trigger] fn_registered_at(
                    old(self).keys(),
                    old(self).slot_collections(),
                    old(self).fn_collections(),
                    final(self).keys(),
                    final(self).slot_collections(),
                    final(self).fn_collections(),
                    event_identifier,
                    function,
                    j,
                ),
            T::obeys_eq_spec() ==> forall|j: int|
                is_first_key_match(old(self).keys(), event_identifier, j) ==> fn_registered_at(
                    old(self).keys(),
                    old(self).slot_collections(),
                    old(self).fn_collections(),
                    final(self).keys(),
                    final(self).slot_collections(),
                    final(self).fn_collections(),
                    event_identifier,
                    function,
                    j,
                ),
            T::obeys_eq_spec() && no_key_match(old(self).keys(), event_identifier)
                ==> fn_registered_at(
                old(self).keys(),
                old(self).slot_collections(),
                old(self).fn_collections(),
                final(self).keys(),
                final(self).slot_collections(),
                final(self).fn_collections(),
                event_identifier,
                function,
                old(self).keys().len() as int,
            ),
    {
        let ghost ks0 = self.keys();
        let ghost tc0 = self.slot_collections();
        let ghost fc0 = self.fn_collections();
        match self.position_of(&event_identifier) {
            Some(j) => {
                let entry = &mut self.events[j];
                entry.fns.push(function);
                proof {
                    assert(self.keys() =~= ks0);
                    assert(self.slot_collections() =~= tc0);
                    assert(self.fn_collections() =~= fc0.update(
                        j as int,
                        fc0[j as int].push(function),
                    ));
                    assert(fn_registered_at(
                        ks0,
                        tc0,
                        fc0,
                        self.keys(),
                        self.slot_collections(),
                        self.fn_collections(),
                        event_identifier,
                        function,
                        j as int,
                    ));
                }
            },
            None => {
                let mut fs: Vec<F> = Vec::new();
                fs.push(function);
                self.events.push(SlotEntry { key: event_identifier, traits: Vec::new(), fns: fs });
                proof {
                    assert(self.keys() =~= ks0.push(event_identifier));
                    assert(self.slot_collections() =~= tc0.push(Seq::<WeakSlot<L>>::empty()));
                    assert(self.fn_collections() =~= fc0.push(seq![function]));
                    assert(fn_registered_at(
                        ks0,
                        tc0,
                        fc0,
                        self.keys(),
                        self.slot_collections(),
                        self.fn_collections(),
                        event_identifier,
                        function,
                        ks0.len() as int,
                    ));
                }
            },
        }
    }

    /// Every live listener registered for `event_identifier` is
    /// invoked once: first the capability-object slots in storage
    /// order (a dead slot is silently skipped), then — unless a slot
    /// listener stopped propagation — the callables in storage order.
    /// Listeners answering `StopListening` are removed by
    /// swap-removal, a propagation-stopping answer ends the whole
    /// pass, and dead slots are purged before the pass completes.
    /// Other identifiers and their listeners are untouched.
    pub fn dispatch_event(&mut self, event_identifier: &T)
        requires
            old(self).wf(),
        ensures
            final(self).wf(),
            final(self).keys() == old(self).keys(),
            (exists|j: int, sigs_t: Seq<Signal>, keep: Seq<bool>, sigs_f: Seq<Signal>|
                #[trigger] dispatch_hit(
                    old(self).slot_collections(),
                    old(self).fn_collections(),
                    final(self).slot_collections(),
                    final(self).fn_collections(),
                    *event_identifier,
                    j,
                    sigs_t,
                    keep,
                    sigs_f,
                )) || (final(self).slot_collections() == old(self).slot_collections()
                && final(self).fn_collections() == old(self).fn_collections()),
            T::obeys_eq_spec() && no_key_match(old(self).keys(), *event_identifier)
                ==> final(self).slot_collections() == old(self).slot_collections()
                && final(self).fn_collections() == old(self).fn_collections(),
            T::obeys_eq_spec() ==> forall|j: int|
                is_first_key_match(old(self).keys(), *event_identifier, j) ==> exists|
                    sigs_t: Seq<Signal>,
                    keep: Seq<bool>,
                    sigs_f: Seq<Signal>,
                |
                    #[trigger] dispatch_hit(
                        old(self).slot_collections(),
                        old(self).fn_collections(),
                        final(self).slot_collections(),
                        final(self).fn_collections(),
                        *event_identifier,
                        j,
                        sigs_t,
                        keep,
                        sigs_f,
                    ),
    {
        let ghost ks0 = self.keys();
        let ghost tc0 = self.slot_collections();
        let ghost fc0 = self.fn_collections();
        match self.position_of(event_identifier) {
            Some(j) => {
                let c = |slot: &WeakSlot<L>| -> (r: Option<PriorityDispatcherResult>)
                    ensures
                        r is None || exists|l: L|
                            call_ensures(L::on_event, (&l, event_identifier), r),
                    {
                        match slot.upgrade() {
                            Some(cell) => (&*cell).on_event(event_identifier),
                            None => None,
                        }
                    };
                assert(forall|x: &WeakSlot<L>| #[trigger] call_requires(c, (x,)));
                let entry = &mut self.events[j];
                let result_t = execute_sync_dispatcher_requests(&mut entry.traits, c);
                let ghost tw = entry.traits@;
                let ghost sigs_t = choose|sigs: Seq<Signal>|
                    {
                        &&& crate::walk::trace_ok(c, request_signals(), start(tc0[j as int]), sigs)
                        &&& complete_from(start(tc0[j as int]), sigs)
                        &&& tw == run_from(start(tc0[j as int]), sigs).items
                        &&& (result_t is Stopped <==> run_from(
                            start(tc0[j as int]),
                            sigs,
                        ).halted)
                    };
                proof {
                    crate::sync::lemma_trace_ok_slots(
                        c,
                        *event_identifier,
                        start(tc0[j as int]),
                        sigs_t,
                    );
                }
                let stopped = match result_t {
                    ExecuteRequestsResult::Stopped => true,
                    ExecuteRequestsResult::Finished => false,
                };
                let ghost mut sigs_f: Seq<Signal> = Seq::empty();
                let ghost fw = fc0[j as int];
                if !stopped {
                    let cf = |stored: &F| -> (r: Option<PriorityDispatcherResult>)
                        requires
                            call_requires(*stored, (event_identifier,)),
                        ensures
                            call_ensures(*stored, (event_identifier,), r),
                        { (*stored)(event_identifier) };
                    assert(forall|i: int|
                        0 <= i < entry.fns@.len() ==> call_requires(cf, (&entry.fns@[i],)));
                    execute_sync_dispatcher_requests(&mut entry.fns, cf);
                    proof {
                        sigs_f = choose|sigs: Seq<Signal>|
                            {
                                &&& crate::walk::trace_ok(
                                    cf,
                                    request_signals(),
                                    start(fc0[j as int]),
                                    sigs,
                                )
                                &&& complete_from(start(fc0[j as int]), sigs)
                                &&& entry.fns@ == run_from(start(fc0[j as int]), sigs).items
                            };
                        crate::sync::lemma_trace_ok_fns(
                            cf,
                            *event_identifier,
                            start(fc0[j as int]),
                            sigs_f,
                        );
                        fw = run_from(start(fc0[j as int]), sigs_f).items;
                    }
                }
                purge_dead_slots(&mut entry.traits);
                let ghost keep = choose|keep: Seq<bool>|
                    keep.len() == tw.len() && entry.traits@ == #[trigger] masked(tw, keep);
                let ghost ts1 = entry.traits@;
                let ghost fs1 = entry.fns@;
                proof {
                    assert(self.keys() =~= ks0);
                    assert(self.slot_collections() =~= tc0.update(j as int, ts1));
                    assert(self.fn_collections() =~= fc0.update(j as int, fs1));
                    if stopped {
                        assert(fc0.update(j as int, fs1) =~= fc0);
                    }
                    assert(dispatch_hit(
                        tc0,
                        fc0,
                        self.slot_collections(),
                        self.fn_collections(),
                        *event_identifier,
                        j as int,
                        sigs_t,
                        keep,
                        sigs_f,
                    ));
                    assert forall|k: int, x: &T| 0 <= k < fs1.len() implies call_requires(
                        fs1[k],
                        (x,),
                    ) by {
                        if stopped {
                            assert(fs1 == fc0[j as int]);
                        } else {
                            crate::walk::lemma_run_elements_come_from_start(
                                start(fc0[j as int]),
                                sigs_f,
                            );
                            assert(fc0[j as int].contains(fs1[k]));
                            let i = choose|i: int|
                                0 <= i < fc0[j as int].len() && fc0[j as int][i] == fs1[k];
                            assert(call_requires(fc0[j as int][i], (x,)));
                        }
                    }
                    assert(self.wf());
                }
            },
            None => {
                proof {
                    assert(self.slot_collections() == tc0);
                    assert(self.fn_collections() == fc0);
                }
            },
        }
    }
}

impl<T: PartialEq, L: Listener<T>, F: Fn(&T) -> Option<PriorityDispatcherResult>> Default
    for EventDispatcher<T, L, F> {
    /// An empty dispatcher: no identifiers, no listeners.
    fn default() -> (d: Self)
        ensures
            d.wf(),
            d.keys() == Seq::<T>::empty(),
            d.slot_collections() == Seq::<Seq<WeakSlot<L>>>::empty(),
            d.fn_collections() == Seq::<Seq<F>>::empty(),
    {
        let d = EventDispatcher { events: Vec::new() };
        proof {
            assert(d.keys() =~= Seq::<T>::empty());
            assert(d.slot_collections() =~= Seq::<Seq<WeakSlot<L>>>::empty());
            assert(d.fn_collections() =~= Seq::<Seq<F>>::empty());
        }
        d
    }
}

} // verus!
