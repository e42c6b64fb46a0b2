//! The blocking priority dispatcher: capability-object listeners are
//! held through non-owning references and owned callables stand beside
//! them, grouped into priority buckets per event identifier and
//! dispatched in ascending priority order.
use core::cmp::Ordering;
use vstd::laws_cmp::obeys_cmp;
use vstd::prelude::*;
use vstd::std_specs::cmp::{OrdSpec, PartialEqSpec, PartialOrdSpec};

use crate::rc::{
    execute_dispatcher_requests, fn_trace_ok, purge_dead_slots, request_signals, slot_trace_ok,
    DispatcherRequest, ExecuteRequestsResult, Listener, RcSlot,
};
use crate::walk::{complete_from, masked, run_from, start, Signal};

verus! {

#[verifier::reject_recursive_types(L)]
struct Level<P, L, F> {
    priority: P,
    traits: Vec<RcSlot<L>>,
    fns: Vec<F>,
}

#[verifier::reject_recursive_types(L)]
struct LevelEntry<T, P, L, F> {
    key: T,
    buckets: Vec<Level<P, L, F>>,
}

/// In charge of blocking, priority-ordered dispatch to all listeners.
/// Each event identifier owns a list of priority buckets, kept in
/// strictly ascending priority order; a bucket holds its
/// capability-object slots and its owned callables in registration
/// order, and a pass walks the slots first, then the callables.
///
/// Capability-object listeners are registered from a strong reference
/// but held through a non-owning one: the dispatcher never keeps a
/// listener alive, and a slot whose referent has been dropped is never
/// invoked again and is purged from its bucket by the end of the next
/// pass that reaches the bucket, whether or not that pass was stopped.
///
/// Lookups compare identifiers with `==` and priorities with their
/// `Ord` methods, so the contracts that pin *which* entry or bucket is
/// touched hold when those comparisons obey their specifications; what
/// happens to the touched bucket is pinned unconditionally.
#[verifier::reject_recursive_types(L)]
pub struct PriorityEventDispatcher<P, T, L, F> where F: Fn(&T) -> Option<DispatcherRequest> {
    events: Vec<LevelEntry<T, P, L, F>>,
}

/// `ks[j]` is the first key of `ks` equal to `e`.
pub open spec fn is_first_key_match<T: PartialEq>(ks: Seq<T>, e: T, j: int) -> bool {
    &&& 0 <= j < ks.len()
    &&& ks[j].eq_spec(&e)
    &&& forall|k: int| 0 <= k < j ==> !(#[trigger] ks[k]).eq_spec(&e)
}

/// No key of `ks` is equal to `e`.
pub open spec fn no_key_match<T: PartialEq>(ks: Seq<T>, e: T) -> bool {
    forall|k: int| 0 <= k < ks.len() ==> !(#[trigger] ks[k]).eq_spec(&e)
}

/// Priorities in strictly ascending order.
pub open spec fn ascending<P: Ord>(ps: Seq<P>) -> bool {
    forall|a: int, b: int| 0 <= a < b < ps.len() ==> (#[trigger] ps[a].cmp_spec(&ps[b])) is Less
}

/// `b` is where `p` belongs in the ascending priority list `ps`: every
/// earlier bucket is strictly smaller, and `p` joins bucket `b` when
/// it carries the same priority, or a new bucket is opened before the
/// strictly greater one.
pub open spec fn is_bucket_position<P: Ord>(ps: Seq<P>, p: P, b: int, joined: bool) -> bool {
    &&& 0 <= b <= ps.len()
    &&& forall|i: int| 0 <= i < b ==> (#[trigger] ps[i].cmp_spec(&p)) is Less
    &&& if joined {
        b < ps.len() && ps[b].cmp_spec(&p) is Equal
    } else {
        b < ps.len() ==> ps[b].cmp_spec(&p) is Greater
    }
}

/// Inserting a priority at its bucket position keeps the list
/// ascending.
pub proof fn lemma_ascending_insert<P: Ord>(ps: Seq<P>, p: P, b: int)
    requires
        obeys_cmp::<P>(),
        ascending(ps),
        is_bucket_position(ps, p, b, false),
    ensures
        ascending(ps.insert(b, p)),
{
    reveal(vstd::laws_cmp::obeys_cmp_ord);
    reveal(vstd::laws_cmp::obeys_cmp_partial_ord);
    reveal(vstd::laws_cmp::obeys_partial_cmp_spec_properties);
    let qs = ps.insert(b, p);
    assert forall|a: int, c: int| 0 <= a < c < qs.len() implies (#[trigger] qs[a].cmp_spec(
        &qs[c],
    )) is Less by {
        if a < b && c == b {
            assert(qs[a] == ps[a] && qs[c] == p);
        } else if a < b && c > b {
            assert(qs[a] == ps[a] && qs[c] == ps[c - 1]);
            if c - 1 > a {
                assert(ps[a].cmp_spec(&ps[c - 1]) is Less);
            } else {
                assert(c - 1 == b && a < b);
                assert(ps[a].cmp_spec(&p) is Less);
                assert(ps[b].cmp_spec(&p) is Greater);
                assert(ps[a].partial_cmp_spec(&p) == Some(Ordering::Less));
                assert(ps[b].partial_cmp_spec(&p) == Some(Ordering::Greater));
                assert(p.partial_cmp_spec(&ps[b]) == Some(Ordering::Less));
                assert(ps[a].partial_cmp_spec(&ps[b]) == Some(Ordering::Less));
            }
        } else if a == b {
            assert(qs[a] == p && qs[c] == ps[c - 1]);
            assert(ps[b].cmp_spec(&p) is Greater);
            assert(p.partial_cmp_spec(&ps[b]) == Some(Ordering::Less));
            if c - 1 > b {
                assert(ps[b].partial_cmp_spec(&ps[c - 1]) == Some(Ordering::Less));
                assert(p.partial_cmp_spec(&ps[c - 1]) == Some(Ordering::Less));
            }
        } else if a > b {
            assert(qs[a] == ps[a - 1] && qs[c] == ps[c - 1]);
            assert(ps[a - 1].cmp_spec(&ps[c - 1]) is Less);
        } else {
            assert(a < b && c < b);
            assert(qs[a] == ps[a] && qs[c] == ps[c]);
        }
    }
}

/// A registration joined the bucket at `b` of entry `j` (when
/// `joined`), opened a new bucket at position `b` of entry `j`, or,
/// for `j` just past the last entry, opened a fresh entry with a
/// single bucket. `nt` and `nf` are the new bucket contents: one slot
/// and no callables for a capability-object registration, no slots and
/// one callable for a callable registration.
pub open spec fn level_registered_at<T, P, L, F>(
    ks0: Seq<T>,
    ps0: Seq<Seq<P>>,
    tc0: Seq<Seq<Seq<RcSlot<L>>>>,
    fc0: Seq<Seq<Seq<F>>>,
    ks1: Seq<T>,
    ps1: Seq<Seq<P>>,
    tc1: Seq<Seq<Seq<RcSlot<L>>>>,
    fc1: Seq<Seq<Seq<F>>>,
    key: T,
    priority: P,
    nt: Seq<RcSlot<L>>,
    nf: Seq<F>,
    j: int,
    b: int,
    joined: bool,
) -> bool {
    if j == ks0.len() {
        &&& ks1 == ks0.push(key)
        &&& ps1 == ps0.push(seq![priority])
        &&& tc1 == tc0.push(seq![nt])
        &&& fc1 == fc0.push(seq![nf])
        &&& b == 0
        &&& !joined
    } else {
        &&& 0 <= j < ks0.len()
        &&& ks1 == ks0
        &&& if joined {
            &&& 0 <= b < ps0[j].len()
            &&& ps1 == ps0
            &&& tc1 == tc0.update(j, tc0[j].update(b, tc0[j][b] + nt))
            &&& fc1 == fc0.update(j, fc0[j].update(b, fc0[j][b] + nf))
        } else {
            &&& 0 <= b <= ps0[j].len()
            &&& ps1 == ps0.update(j, ps0[j].insert(b, priority))
            &&& tc1 == tc0.update(j, tc0[j].insert(b, nt))
            &&& fc1 == fc0.update(j, fc0[j].insert(b, nf))
        }
    }
}

/// Whether the walks of one bucket ended the whole pass.
pub open spec fn bucket_halts<T, L: Listener<T>, F>(
    t0: Seq<RcSlot<L>>,
    f0: Seq<F>,
    sigs_t: Seq<Signal>,
    sigs_f: Seq<Signal>,
) -> bool {
    run_from(start(t0), sigs_t).halted || run_from(start(f0), sigs_f).halted
}

/// One bucket of a dispatch pass: the slots were walked under a trace
/// the listeners could produce (a dead slot answering `Keep`), then —
/// unless that walk was halted — the callables were walked under a
/// trace they could produce, and finally the dead slots were purged.
pub open spec fn level_pass<T, L: Listener<T>, F: Fn(&T) -> Option<DispatcherRequest>>(
    event: T,
    t0: Seq<RcSlot<L>>,
    f0: Seq<F>,
    sigs_t: Seq<Signal>,
    keep: Seq<bool>,
    sigs_f: Seq<Signal>,
) -> bool {
    &&& slot_trace_ok(event, start(t0), sigs_t)
    &&& complete_from(start(t0), sigs_t)
    &&& keep.len() == run_from(start(t0), sigs_t).items.len()
    &&& if run_from(start(t0), sigs_t).halted {
        sigs_f.len() == 0
    } else {
        &&& fn_trace_ok(event, start(f0), sigs_f)
        &&& complete_from(start(f0), sigs_f)
    }
}

/// The slots a bucket holds after its pass: the walked slots, with
/// the dead ones purged.
pub open spec fn level_slots_after<T, L: Listener<T>>(
    t0: Seq<RcSlot<L>>,
    sigs_t: Seq<Signal>,
    keep: Seq<bool>,
) -> Seq<RcSlot<L>> {
    masked(run_from(start(t0), sigs_t).items, keep)
}

/// A priority dispatch pass hit entry `j`: its buckets were walked in
/// storage order, each as one [`level_pass`] for `event`. `h` is where
/// the pass ended: every bucket before `h` ran to completion without
/// halting, bucket `h` — if it exists — was halted by a
/// propagation-stopping answer, and every bucket after `h` was left
/// untouched. No other entry changed.
pub open spec fn level_dispatch_hit<T, L: Listener<T>, F: Fn(&T) -> Option<DispatcherRequest>>(
    tc0: Seq<Seq<Seq<RcSlot<L>>>>,
    fc0: Seq<Seq<Seq<F>>>,
    tc1: Seq<Seq<Seq<RcSlot<L>>>>,
    fc1: Seq<Seq<Seq<F>>>,
    event: T,
    j: int,
    sigts: Seq<Seq<Signal>>,
    keeps: Seq<Seq<bool>>,
    sigfs: Seq<Seq<Signal>>,
    h: int,
) -> bool {
    &&& 0 <= j < tc0.len()
    &&& 0 <= j < fc0.len()
    &&& fc0[j].len() == tc0[j].len()
    &&& 0 <= h <= tc0[j].len()
    &&& sigts.len() == tc0[j].len()
    &&& keeps.len() == tc0[j].len()
    &&& sigfs.len() == tc0[j].len()
    &&& forall|b: int|
        #![trigger sigts[b]]
        0 <= b <= h && b < tc0[j].len() ==> level_pass(
            event,
            tc0[j][b],
            fc0[j][b],
            sigts[b],
            keeps[b],
            sigfs[b],
        )
    &&& forall|b: int|
        #![trigger sigfs[b]]
        0 <= b < tc0[j].len() ==> (bucket_halts::<T, L, F>(tc0[j][b], fc0[j][b], sigts[b], sigfs[b])
            <==> b == h)
    &&& forall|b: int|
        #![trigger keeps[b]]
        h < b < tc0[j].len() ==> sigts[b] =~= Seq::<Signal>::empty() && sigfs[b] =~= Seq::<
            Signal,
        >::empty()
    &&& tc1 == tc0.update(
        j,
        Seq::new(
            tc0[j].len(),
            |b: int|
                if b <= h {
                    level_slots_after(tc0[j][b], sigts[b], keeps[b])
                } else {
                    tc0[j][b]
                },
        ),
    )
    &&& fc1 == fc0.update(
        j,
        Seq::new(
            fc0[j].len(),
            |b: int|
                if b <= h && !run_from(start(tc0[j][b]), sigts[b]).halted {
                    run_from(start(fc0[j][b]), sigfs[b]).items
                } else {
                    fc0[j][b]
                },
        ),
    )
}

impl<P: Ord, T: PartialEq, L: Listener<T>, F: Fn(&T) -> Option<DispatcherRequest>> PriorityEventDispatcher<
    P,
    T,
    L,
    F,
> {
    /// The registered event identifiers, in registration order.
    pub closed spec fn keys(self) -> Seq<T> {
        self.events@.map_values(|e: LevelEntry<T, P, L, F>| e.key)
    }

    /// The bucket priorities of each entry, in storage order.
    pub closed spec fn priorities(self) -> Seq<Seq<P>> {
        self.events@.map_values(
            |e: LevelEntry<T, P, L, F>| e.buckets@.map_values(|u: Level<P, L, F>| u.priority),
        )
    }

    /// The capability-object slots of each bucket of each entry.
    pub closed spec fn slot_collections(self) -> Seq<Seq<Seq<RcSlot<L>>>> {
        self.events@.map_values(
            |e: LevelEntry<T, P, L, F>| e.buckets@.map_values(|u: Level<P, L, F>| u.traits@),
        )
    }

    /// The owned callables of each bucket of each entry.
    pub closed spec fn fn_collections(self) -> Seq<Seq<Seq<F>>> {
        self.events@.map_values(
            |e: LevelEntry<T, P, L, F>| e.buckets@.map_values(|u: Level<P, L, F>| u.fns@),
        )
    }

    /// The dispatcher's well-formedness: every entry has as many
    /// buckets as bucket priorities, every stored callable can be
    /// applied to every event, and — as far as `P`'s comparisons mean
    /// anything — every entry's buckets stand in strictly ascending
    /// priority order. Construction establishes it and every method
    /// preserves it.
    pub open spec fn wf(self) -> bool {
        &&& self.keys().len() == self.priorities().len()
        &&& self.keys().len() == self.slot_collections().len()
        &&& self.keys().len() == self.fn_collections().len()
        &&& forall|j: int|
            0 <= j < self.priorities().len() ==> (#[trigger] self.priorities()[j]).len()
                == self.slot_collections()[j].len() && self.priorities()[j].len()
                == self.fn_collections()[j].len()
        &&& forall|j: int, b: int, k: int, x: &T|
            0 <= j < self.fn_collections().len() && 0 <= b < self.fn_collections()[j].len() && 0
                <= k < self.fn_collections()[j][b].len() ==> #[trigger] call_requires(
                self.fn_collections()[j][b][k],
                (x,),
            )
        &&& obeys_cmp::<P>() ==> forall|j: int|
            0 <= j < self.priorities().len() ==> ascending(#[trigger] self.priorities()[j])
    }

    /// The position of the first entry whose key equals `event`.
    fn position_of(&self, event: &T) -> (r: Option<usize>)
        ensures
            r matches Some(j) ==> j < self.keys().len(),
            T::obeys_eq_spec() ==> match r {
                Some(j) => is_first_key_match(self.keys(), *event, j as int),
                None => no_key_match(self.keys(), *event),
            },
    {
        let mut i: usize = 0;
        while i < self.events.len()
            invariant
                i <= self.events.len(),
                T::obeys_eq_spec() ==> forall|k: int|
                    0 <= k < i ==> !(#[trigger] self.keys()[k]).eq_spec(event),
            decreases self.events.len() - i,
        {
            if self.events[i].key == *event {
                return Some(i);
            }
            i = i + 1;
        }
        None
    }

    /// Puts one new registration — `nt`/`nf` is a single slot or a
    /// single callable — into the bucket for `priority` of the entry
    /// for `event_identifier`, creating the bucket or the entry where
    /// it is absent.
    #[verifier::loop_isolation(false)]
    fn register(&mut self, event_identifier: T, traits: Vec<RcSlot<L>>, fns: Vec<F>, priority: P)
        requires
            old(self).wf(),
            forall|k: int, x: &T|
                0 <= k < fns@.len() ==> #[trigger] call_requires(fns@[k], (x,)),
        ensures
            final(self).wf(),
            exists|j: int, b: int, joined: bool|
                #[trigger] level_registered_at(
                    old(self).keys(),
                    old(self).priorities(),
                    old(self).slot_collections(),
                    old(self).fn_collections(),
                    final(self).keys(),
                    final(self).priorities(),
                    final(self).slot_collections(),
                    final(self).fn_collections(),
                    event_identifier,
                    priority,
                    traits@,
                    fns@,
                    j,
                    b,
                    joined,
                ),
            obeys_cmp::<P>() && T::obeys_eq_spec() ==> forall|j: int|
                is_first_key_match(old(self).keys(), event_identifier, j) ==> exists|
                    b: int,
                    joined: bool,
                |
                    is_bucket_position(old(self).priorities()[j], priority, b, joined)
                        && #[trigger] level_registered_at(
                        old(self).keys(),
                        old(self).priorities(),
                        old(self).slot_collections(),
                        old(self).fn_collections(),
                        final(self).keys(),
                        final(self).priorities(),
                        final(self).slot_collections(),
                        final(self).fn_collections(),
                        event_identifier,
                        priority,
                        traits@,
                        fns@,
                        j,
                        b,
                        joined,
                    ),
            obeys_cmp::<P>() && T::obeys_eq_spec() && no_key_match(
                old(self).keys(),
                event_identifier,
            ) ==> level_registered_at(
                old(self).keys(),
                old(self).priorities(),
                old(self).slot_collections(),
                old(self).fn_collections(),
                final(self).keys(),
                final(self).priorities(),
                final(self).slot_collections(),
                final(self).fn_collections(),
                event_identifier,
                priority,
                traits@,
                fns@,
                old(self).keys().len() as int,
                0,
                false,
            ),
    {
        let ghost ks0 = self.keys();
        let ghost ps0 = self.priorities();
        let ghost tc0 = self.slot_collections();
        let ghost fc0 = self.fn_collections();
        let ghost nt = traits@;
        let ghost nf = fns@;
        match self.position_of(&event_identifier) {
            Some(j) => {
                proof {
                    reveal(vstd::laws_cmp::obeys_cmp_ord);
                    reveal(vstd::laws_cmp::obeys_cmp_partial_ord);
                    reveal(vstd::laws_cmp::obeys_partial_cmp_spec_properties);
                }
                let n = self.events[j].buckets.len();
                let mut b: usize = 0;
                while b < n && self.events[j].buckets[b].priority < priority
                    invariant
                        0 <= b <= n,
                        n == self.events@[j as int].buckets@.len(),
                        j < self.events@.len(),
                        obeys_cmp::<P>() ==> forall|i: int|
                            0 <= i < b ==> (#[trigger] ps0[j as int][i].cmp_spec(
                                &priority,
                            )) is Less,
                    decreases n - b,
                {
                    proof {
                        reveal(vstd::laws_cmp::obeys_cmp_ord);
                        reveal(vstd::laws_cmp::obeys_cmp_partial_ord);
                        reveal(vstd::laws_cmp::obeys_partial_cmp_spec_properties);
                    }
                    b = b + 1;
                }
                let joined = b < n && self.events[j].buckets[b].priority == priority;
                let ghost bg = b as int;
                proof {
                    reveal(vstd::laws_cmp::obeys_cmp_ord);
                    reveal(vstd::laws_cmp::obeys_cmp_partial_ord);
                    reveal(vstd::laws_cmp::obeys_partial_cmp_spec_properties);
                    if obeys_cmp::<P>() {
                        assert(is_bucket_position(ps0[j as int], priority, bg, joined));
                    }
                }
                if joined {
                    let bucket = &mut self.events[j].buckets[b];
                    let mut traits = traits;
                    let mut fns = fns;
                    bucket.traits.append(&mut traits);
                    bucket.fns.append(&mut fns);
                    proof {
                        assert(self.keys() =~= ks0);
                        assert(self.priorities() =~~= ps0);
                        assert(self.slot_collections() =~~= tc0.update(
                            j as int,
                            tc0[j as int].update(bg, tc0[j as int][bg] + nt),
                        ));
                        assert(self.fn_collections() =~~= fc0.update(
                            j as int,
                            fc0[j as int].update(bg, fc0[j as int][bg] + nf),
                        ));
                        assert(level_registered_at(
                            ks0,
                            ps0,
                            tc0,
                            fc0,
                            self.keys(),
                            self.priorities(),
                            self.slot_collections(),
                            self.fn_collections(),
                            event_identifier,
                            priority,
                            nt,
                            nf,
                            j as int,
                            bg,
                            true,
                        ));
                    }
                } else {
                    let entry = &mut self.events[j];
                    entry.buckets.insert(b, Level { priority, traits, fns });
                    proof {
                        assert(self.keys() =~= ks0);
                        assert(self.priorities() =~~= ps0.update(
                            j as int,
                            ps0[j as int].insert(bg, priority),
                        ));
                        assert(self.slot_collections() =~~= tc0.update(
                            j as int,
                            tc0[j as int].insert(bg, nt),
                        ));
                        assert(self.fn_collections() =~~= fc0.update(
                            j as int,
                            fc0[j as int].insert(bg, nf),
                        ));
                        assert(level_registered_at(
                            ks0,
                            ps0,
                            tc0,
                            fc0,
                            self.keys(),
                            self.priorities(),
                            self.slot_collections(),
                            self.fn_collections(),
                            event_identifier,
                            priority,
                            nt,
                            nf,
                            j as int,
                            bg,
                            false,
                        ));
                        if obeys_cmp::<P>() {
                            lemma_ascending_insert(ps0[j as int], priority, bg);
                        }
                    }
                }
            },
            None => {
                let mut bs: Vec<Level<P, L, F>> = Vec::new();
                bs.push(Level { priority, traits, fns });
                self.events.push(LevelEntry { key: event_identifier, buckets: bs });
                proof {
                    assert(self.keys() =~= ks0.push(event_identifier));
                    assert(self.priorities() =~~= ps0.push(seq![priority]));
                    assert(self.slot_collections() =~~= tc0.push(seq![nt]));
                    assert(self.fn_collections() =~~= fc0.push(seq![nf]));
                    assert(level_registered_at(
                        ks0,
                        ps0,
                        tc0,
                        fc0,
                        self.keys(),
                        self.priorities(),
                        self.slot_collections(),
                        self.fn_collections(),
                        event_identifier,
                        priority,
                        nt,
                        nf,
                        ks0.len() as int,
                        0,
                        false,
                    ));
                }
            },
        }
    }

    /// Adds a [`Listener`] to listen for `event_identifier` at the
    /// given priority: a non-owning slot for it joins the bucket
    /// carrying an equal priority, or a new bucket is opened at the
    /// position that keeps the priorities ascending. Registration
    /// never invokes a listener, and the dispatcher does not keep
    /// `listener` alive.
    pub fn add_listener(&mut self, event_identifier: T, listener: &std::rc::Rc<L>, priority: P)
        requires
            old(self).wf(),
        ensures
            final(self).wf(),
            exists|j: int, b: int, joined: bool, slot: RcSlot<L>|
                #[trigger] level_registered_at(
                    old(self).keys(),
                    old(self).priorities(),
                    old(self).slot_collections(),
                    old(self).fn_collections(),
                    final(self).keys(),
                    final(self).priorities(),
                    final(self).slot_collections(),
                    final(self).fn_collections(),
                    event_identifier,
                    priority,
                    seq![slot],
                    Seq::<F>::empty(),
                    j,
                    b,
                    joined,
                ),
            obeys_cmp::<P>() && T::obeys_eq_spec() ==> forall|j: int|
                is_first_key_match(old(self).keys(), event_identifier, j) ==> exists|
                    b: int,
                    joined: bool,
                    slot: RcSlot<L>,
                |
                    is_bucket_position(old(self).priorities()[j], priority, b, joined)
                        && #[trigger] level_registered_at(
                        old(self).keys(),
                        old(self).priorities(),
                        old(self).slot_collections(),
                        old(self).fn_collections(),
                        final(self).keys(),
                        final(self).priorities(),
                        final(self).slot_collections(),
                        final(self).fn_collections(),
                        event_identifier,
                        priority,
                        seq![slot],
                        Seq::<F>::empty(),
                        j,
                        b,
                        joined,
                    ),
    {
        let mut ts: Vec<RcSlot<L>> = Vec::new();
        ts.push(RcSlot::of(listener));
        let fs: Vec<F> = Vec::new();
        let ghost slot = ts@[0];
        proof {
            assert(ts@ =~= seq![slot]);
            assert(fs@ =~= Seq::<F>::empty());
        }
        self.register(event_identifier, ts, fs, priority);
    }

    /// Adds a callable to listen for `event_identifier` at the given
    /// priority: it joins the bucket carrying an equal priority, or a
    /// new bucket is opened at the position that keeps the priorities
    /// ascending. The dispatcher owns the callable outright.
    /// Registration never invokes it.
    pub fn add_fn(&mut self, event_identifier: T, function: F, priority: P)
        requires
            old(self).wf(),
            forall|x: &T| #[trigger] call_requires(function, (x,)),
        ensures
            final(self).wf(),
            exists|j: int, b: int, joined: bool|
                #[trigger] level_registered_at(
                    old(self).keys(),
                    old(self).priorities(),
                    old(self).slot_collections(),
                    old(self).fn_collections(),
                    final(self).keys(),
                    final(self).priorities(),
                    final(self).slot_collections(),
                    final(self).fn_collections(),
                    event_identifier,
                    priority,
                    Seq::<RcSlot<L>>::empty(),
                    seq![function],
                    j,
                    b,
                    joined,
                ),
            obeys_cmp::<P>() && T::obeys_eq_spec() ==> forall|j: int|
                is_first_key_match(old(self).keys(), event_identifier, j) ==> exists|
                    b: int,
                    joined: bool,
                |
                    is_bucket_position(old(self).priorities()[j], priority, b, joined)
                        && #[trigger] level_registered_at(
                        old(self).keys(),
                        old(self).priorities(),
                        old(self).slot_collections(),
                        old(self).fn_collections(),
                        final(self).keys(),
                        final(self).priorities(),
                        final(self).slot_collections(),
                        final(self).fn_collections(),
                        event_identifier,
                        priority,
                        Seq::<RcSlot<L>>::empty(),
                        seq![function],
                        j,
                        b,
                        joined,
                    ),
    {
        let ghost f = function;
        let mut fs: Vec<F> = Vec::new();
        fs.push(function);
        let ts: Vec<RcSlot<L>> = Vec::new();
        proof {
            assert(fs@ =~= seq![f]);
            assert(ts@ =~= Seq::<RcSlot<L>>::empty());
        }
        self.register(event_identifier, ts, fs, priority);
    }

    /// Every live listener registered for `event_identifier` is
    /// invoked at most once per pass, bucket by bucket in ascending
    /// priority order — within a bucket, capability-object slots
    /// first, then callables, each in storage order — until a listener
    /// stops propagation, which ends the pass for every later bucket
    /// as well. A listener answering `StopListening` is removed from
    /// its bucket by swap-removal, a dead slot is silently skipped,
    /// and every bucket the pass reaches has its dead slots purged,
    /// stopped or not. Bucket priorities and other identifiers are
    /// untouched.
    #[verifier::loop_isolation(false)]
    #[verifier::rlimit(100)]
    pub fn dispatch_event(&mut self, event_identifier: &T)
        requires
            old(self).wf(),
        ensures
            final(self).wf(),
            final(self).keys() == old(self).keys(),
            final(self).priorities() == old(self).priorities(),
            (exists|j: int, sigts: Seq<Seq<Signal>>, keeps: Seq<Seq<bool>>, sigfs: Seq<Seq<Signal>>, h: int|
                #[trigger] level_dispatch_hit(
                    old(self).slot_collections(),
                    old(self).fn_collections(),
                    final(self).slot_collections(),
                    final(self).fn_collections(),
                    *event_identifier,
                    j,
                    sigts,
                    keeps,
                    sigfs,
                    h,
                )) || (final(self).slot_collections() == old(self).slot_collections()
                && final(self).fn_collections() == old(self).fn_collections()),
            T::obeys_eq_spec() && no_key_match(old(self).keys(), *event_identifier)
                ==> final(self).slot_collections() == old(self).slot_collections()
                && final(self).fn_collections() == old(self).fn_collections(),
            T::obeys_eq_spec() ==> forall|j: int|
                is_first_key_match(old(self).keys(), *event_identifier, j) ==> exists|
                    sigts: Seq<Seq<Signal>>,
                    keeps: Seq<Seq<bool>>,
                    sigfs: Seq<Seq<Signal>>,
                    h: int,
                |
                    #[trigger] level_dispatch_hit(
                        old(self).slot_collections(),
                        old(self).fn_collections(),
                        final(self).slot_collections(),
                        final(self).fn_collections(),
                        *event_identifier,
                        j,
                        sigts,
                        keeps,
                        sigfs,
                        h,
                    ),
    {
        let ghost ks0 = self.keys();
        let ghost ps0 = self.priorities();
        let ghost tc0 = self.slot_collections();
        let ghost fc0 = self.fn_collections();
        match self.position_of(event_identifier) {
            Some(j) => {
                let n = self.events[j].buckets.len();
                let mut b: usize = 0;
                let mut stopped = false;
                let ghost mut sigts: Seq<Seq<Signal>> = Seq::empty();
                let ghost mut keeps: Seq<Seq<bool>> = Seq::empty();
                let ghost mut sigfs: Seq<Seq<Signal>> = Seq::empty();
                assert(n == tc0[j as int].len());
                while b < n && !stopped
                    invariant
                        b <= n,
                        stopped ==> 0 < b,
                        sigts.len() == b as int,
                        keeps.len() == b as int,
                        sigfs.len() == b as int,
                        self.events@.len() == tc0.len(),
                        self.keys() == ks0,
                        self.priorities() =~~= ps0,
                        self.slot_collections().len() == tc0.len(),
                        self.fn_collections().len() == fc0.len(),
                        forall|jj: int|
                            0 <= jj < tc0.len() && jj != j as int
                                ==> #[trigger] self.slot_collections()[jj] == tc0[jj],
                        forall|jj: int|
                            0 <= jj < fc0.len() && jj != j as int
                                ==> #[trigger] self.fn_collections()[jj] == fc0[jj],
                        self.slot_collections()[j as int].len() == n,
                        self.fn_collections()[j as int].len() == n,
                        forall|bb: int|
                            b <= bb < n ==> #[trigger] self.slot_collections()[j as int][bb]
                                == tc0[j as int][bb],
                        forall|bb: int|
                            b <= bb < n ==> #[trigger] self.fn_collections()[j as int][bb]
                                == fc0[j as int][bb],
                        forall|bb: int|
                            #![trigger sigts[bb]]
                            0 <= bb < b ==> level_pass(
                                *event_identifier,
                                tc0[j as int][bb],
                                fc0[j as int][bb],
                                sigts[bb],
                                keeps[bb],
                                sigfs[bb],
                            ),
                        forall|bb: int|
                            0 <= bb < b ==> #[trigger] self.slot_collections()[j as int][bb]
                                == level_slots_after(tc0[j as int][bb], sigts[bb], keeps[bb]),
                        forall|bb: int|
                            0 <= bb < b ==> #[trigger] self.fn_collections()[j as int][bb] == (
                            if !run_from(start(tc0[j as int][bb]), sigts[bb]).halted {
                                run_from(start(fc0[j as int][bb]), sigfs[bb]).items
                            } else {
                                fc0[j as int][bb]
                            }),
                        forall|bb: int|
                            #![trigger sigfs[bb]]
                            0 <= bb < b ==> (bucket_halts::<T, L, F>(
                                tc0[j as int][bb],
                                fc0[j as int][bb],
                                sigts[bb],
                                sigfs[bb],
                            ) <==> (stopped && bb == b - 1)),
                        forall|jj: int, bb: int, k: int, x: &T|
                            0 <= jj < self.fn_collections().len() && 0 <= bb
                                < self.fn_collections()[jj].len() && 0 <= k
                                < self.fn_collections()[jj][bb].len() ==> #[trigger] call_requires(
                                self.fn_collections()[jj][bb][k],
                                (x,),
                            ),
                    decreases n - b,
                {
                    let cb = |slot: &RcSlot<L>| -> (r: Option<DispatcherRequest>)
                        ensures
                            r is None || exists|l: L|
                                call_ensures(L::on_event, (&l, event_identifier), r),
                        {
                            match slot.upgrade() {
                                Some(cell) => (&*cell).on_event(event_identifier),
                                None => None,
                            }
                        };
                    assert(forall|x: &RcSlot<L>| #[trigger] call_requires(cb, (x,)));
                    let ghost ev0 = self.events@;
                    let ghost tcp = self.slot_collections();
                    let ghost fcp = self.fn_collections();
                    let ghost t_before = tc0[j as int][b as int];
                    let ghost f_before = fc0[j as int][b as int];
                    assert(self.slot_collections()[j as int][b as int] == t_before);
                    assert(self.fn_collections()[j as int][b as int] == f_before);
                    let bucket = &mut self.events[j].buckets[b];
                    let result_t = execute_dispatcher_requests(&mut bucket.traits, cb);
                    let ghost tw = bucket.traits@;
                    let ghost sigs_t = choose|sigs: Seq<Signal>|
                        {
                            &&& crate::walk::trace_ok(cb, request_signals(), start(t_before), sigs)
                            &&& complete_from(start(t_before), sigs)
                            &&& tw == run_from(start(t_before), sigs).items
                            &&& (result_t is Stopped <==> run_from(start(t_before), sigs).halted)
                        };
                    proof {
                        crate::rc::lemma_trace_ok_slots(
                            cb,
                            *event_identifier,
                            start(t_before),
                            sigs_t,
                        );
                    }
                    let stopped_t = match result_t {
                        ExecuteRequestsResult::Stopped => true,
                        ExecuteRequestsResult::Finished => false,
                    };
                    let ghost mut sigs_f: Seq<Signal> = Seq::empty();
                    let mut halted_here = stopped_t;
                    if !stopped_t {
                        let cf = |stored: &F| -> (r: Option<DispatcherRequest>)
                            requires
                                call_requires(*stored, (event_identifier,)),
                            ensures
                                call_ensures(*stored, (event_identifier,), r),
                            { (*stored)(event_identifier) };
                        assert(forall|i: int|
                            0 <= i < bucket.fns@.len() ==> call_requires(cf, (&bucket.fns@[i],)));
                        let result_f = execute_dispatcher_requests(&mut bucket.fns, cf);
                        proof {
                            sigs_f = choose|sigs: Seq<Signal>|
                                {
                                    &&& crate::walk::trace_ok(
                                        cf,
                                        request_signals(),
                                        start(f_before),
                                        sigs,
                                    )
                                    &&& complete_from(start(f_before), sigs)
                                    &&& bucket.fns@ == run_from(start(f_before), sigs).items
                                    &&& (result_f is Stopped <==> run_from(
                                        start(f_before),
                                        sigs,
                                    ).halted)
                                };
                            crate::rc::lemma_trace_ok_fns(
                                cf,
                                *event_identifier,
                                start(f_before),
                                sigs_f,
                            );
                        }
                        halted_here = match result_f {
                            ExecuteRequestsResult::Stopped => true,
                            ExecuteRequestsResult::Finished => false,
                        };
                    }
                    purge_dead_slots(&mut bucket.traits);
                    let ghost keep = choose|keep: Seq<bool>|
                        keep.len() == tw.len() && bucket.traits@ == #[trigger] masked(tw, keep);
                    let ghost ts1 = bucket.traits@;
                    let ghost fs1 = bucket.fns@;
                    proof {
                        assert(self.events@.len() == ev0.len());
                        assert(forall|jj: int|
                            0 <= jj < ev0.len() && jj != j as int ==> #[trigger] self.events@[jj]
                                == ev0[jj]);
                        assert(self.events@[j as int].key == ev0[j as int].key);
                        assert(self.events@[j as int].buckets@.len() == ev0[j as int].buckets@.len());
                        assert(forall|bb: int|
                            0 <= bb < n && bb != b as int
                                ==> #[trigger] self.events@[j as int].buckets@[bb]
                                == ev0[j as int].buckets@[bb]);
                        assert(self.events@[j as int].buckets@[b as int].traits@ == ts1);
                        assert(self.events@[j as int].buckets@[b as int].fns@ == fs1);
                        assert(self.events@[j as int].buckets@[b as int].priority
                            == ev0[j as int].buckets@[b as int].priority);
                        assert(self.keys() =~= ks0);
                        assert(self.priorities() =~~= ps0);
                        assert forall|jj: int|
                            0 <= jj < tc0.len() && jj != j as int implies #[trigger] self.slot_collections()[jj]
                            == tc0[jj] by {
                            assert(self.events@[jj] == ev0[jj]);
                            assert(tcp[jj] == tc0[jj]);
                        }
                        assert forall|jj: int|
                            0 <= jj < fc0.len() && jj != j as int implies #[trigger] self.fn_collections()[jj]
                            == fc0[jj] by {
                            assert(self.events@[jj] == ev0[jj]);
                            assert(fcp[jj] == fc0[jj]);
                        }
                        assert(self.slot_collections()[j as int].len() == n);
                        assert(self.fn_collections()[j as int].len() == n);
                        assert(self.slot_collections()[j as int][b as int] == ts1);
                        assert(self.fn_collections()[j as int][b as int] == fs1);
                        assert forall|bb: int|
                            0 <= bb < n && bb != b as int implies #[trigger] self.slot_collections()[j as int][bb]
                            == tcp[j as int][bb] && #[trigger] self.fn_collections()[j as int][bb]
                            == fcp[j as int][bb] by {
                            assert(self.events@[j as int].buckets@[bb]
                                == ev0[j as int].buckets@[bb]);
                        }
                        if stopped_t {
                            assert(fs1 == f_before);
                            assert(sigs_f =~= Seq::<Signal>::empty());
                        }
                        assert(level_pass(
                            *event_identifier,
                            t_before,
                            f_before,
                            sigs_t,
                            keep,
                            sigs_f,
                        ));
                        assert(ts1 == level_slots_after(t_before, sigs_t, keep));
                        assert(bucket_halts::<T, L, F>(t_before, f_before, sigs_t, sigs_f)
                            <==> halted_here);
                        if !stopped_t {
                            crate::walk::lemma_run_elements_come_from_start(
                                start(f_before),
                                sigs_f,
                            );
                        }
                        assert forall|k: int, x: &T| 0 <= k < fs1.len() implies call_requires(
                            fs1[k],
                            (x,),
                        ) by {
                            if stopped_t {
                                assert(fs1 == f_before);
                            } else {
                                assert(f_before.contains(fs1[k]));
                                let i = choose|i: int|
                                    0 <= i < f_before.len() && f_before[i] == fs1[k];
                                assert(call_requires(f_before[i], (x,)));
                            }
                        }
                        let sig0 = sigts;
                        let kp0 = keeps;
                        let sgf0 = sigfs;
                        sigts = sigts.push(sigs_t);
                        keeps = keeps.push(keep);
                        sigfs = sigfs.push(sigs_f);
                        assert(sigts[b as int] == sigs_t);
                        assert(keeps[b as int] == keep);
                        assert(sigfs[b as int] == sigs_f);
                        assert(forall|bb: int|
                            0 <= bb < b as int ==> #[trigger] sigts[bb] == sig0[bb]
                                && #[trigger] keeps[bb] == kp0[bb] && #[trigger] sigfs[bb]
                                == sgf0[bb]);
                        assert forall|bb: int|
                            0 <= bb < b as int + 1 implies #[trigger] self.slot_collections()[j as int][bb]
                            == level_slots_after(tc0[j as int][bb], sigts[bb], keeps[bb]) by {
                            if bb < b as int {
                                assert(self.slot_collections()[j as int][bb]
                                    == tcp[j as int][bb]);
                                assert(tcp[j as int][bb] == level_slots_after(
                                    tc0[j as int][bb],
                                    sig0[bb],
                                    kp0[bb],
                                ));
                            } else {
                                assert(self.slot_collections()[j as int][bb] == ts1);
                            }
                        }
                        assert forall|bb: int|
                            0 <= bb < b as int + 1 implies #[trigger] self.fn_collections()[j as int][bb]
                            == (if !run_from(start(tc0[j as int][bb]), sigts[bb]).halted {
                            run_from(start(fc0[j as int][bb]), sigfs[bb]).items
                        } else {
                            fc0[j as int][bb]
                        }) by {
                            if bb < b as int {
                                assert(self.fn_collections()[j as int][bb] == fcp[j as int][bb]);
                                assert(fcp[j as int][bb] == (
                                if !run_from(start(tc0[j as int][bb]), sig0[bb]).halted {
                                    run_from(start(fc0[j as int][bb]), sgf0[bb]).items
                                } else {
                                    fc0[j as int][bb]
                                }));
                            } else {
                                assert(self.fn_collections()[j as int][bb] == fs1);
                            }
                        }
                        assert forall|bb: int|
                            0 <= bb < b as int + 1 implies level_pass(
                            *event_identifier,
                            tc0[j as int][bb],
                            fc0[j as int][bb],
                            #[trigger] sigts[bb],
                            keeps[bb],
                            sigfs[bb],
                        ) by {
                            if bb < b as int {
                                assert(level_pass(
                                    *event_identifier,
                                    tc0[j as int][bb],
                                    fc0[j as int][bb],
                                    sig0[bb],
                                    kp0[bb],
                                    sgf0[bb],
                                ));
                            }
                        }
                        assert forall|bb: int|
                            0 <= bb < b as int + 1 implies (bucket_halts::<T, L, F>(
                            tc0[j as int][bb],
                            fc0[j as int][bb],
                            sigts[bb],
                            #[trigger] sigfs[bb],
                        ) <==> (halted_here && bb == b as int)) by {
                            if bb < b as int {
                                assert(!bucket_halts::<T, L, F>(
                                    tc0[j as int][bb],
                                    fc0[j as int][bb],
                                    sig0[bb],
                                    sgf0[bb],
                                ));
                            }
                        }
                        assert forall|jj: int, bb: int, k: int, x: &T|
                            0 <= jj < self.fn_collections().len() && 0 <= bb
                                < self.fn_collections()[jj].len() && 0 <= k
                                < self.fn_collections()[jj][bb].len() implies #[trigger] call_requires(
                            self.fn_collections()[jj][bb][k],
                            (x,),
                        ) by {
                            if jj == j as int && bb == b as int {
                                assert(self.fn_collections()[jj][bb] == fs1);
                            } else {
                                if jj == j as int {
                                    assert(self.fn_collections()[jj][bb] == fcp[jj][bb]);
                                } else {
                                    assert(self.fn_collections()[jj] == fcp[jj]);
                                }
                                assert(call_requires(fcp[jj][bb][k], (x,)));
                            }
                        }
                    }
                    stopped = halted_here;
                    b = b + 1;
                    proof {
                        assert forall|bb: int|
                            b <= bb < n implies #[trigger] self.slot_collections()[j as int][bb]
                            == tc0[j as int][bb] by {
                            assert(self.events@[j as int].buckets@[bb]
                                == ev0[j as int].buckets@[bb]);
                            assert(tcp[j as int][bb] == tc0[j as int][bb]);
                        }
                        assert forall|bb: int|
                            b <= bb < n implies #[trigger] self.fn_collections()[j as int][bb]
                            == fc0[j as int][bb] by {
                            assert(self.events@[j as int].buckets@[bb]
                                == ev0[j as int].buckets@[bb]);
                            assert(fcp[j as int][bb] == fc0[j as int][bb]);
                        }
                    }
                }
                proof {
                    let h: int = if stopped {
                        b as int - 1
                    } else {
                        n as int
                    };
                    let tpad = sigts + Seq::new((n - b) as nat, |i: int| Seq::<Signal>::empty());
                    let kpad = keeps + Seq::new((n - b) as nat, |i: int| Seq::<bool>::empty());
                    let fpad = sigfs + Seq::new((n - b) as nat, |i: int| Seq::<Signal>::empty());
                    assert(tpad.len() == n as int);
                    assert(forall|bb: int|
                        0 <= bb < b as int ==> #[trigger] tpad[bb] == sigts[bb] && #[trigger] kpad[bb]
                            == keeps[bb] && #[trigger] fpad[bb] == sigfs[bb]);
                    assert(forall|bb: int|
                        b as int <= bb < n as int ==> #[trigger] tpad[bb] =~= Seq::<Signal>::empty()
                            && #[trigger] kpad[bb] =~= Seq::<bool>::empty() && #[trigger] fpad[bb]
                            =~= Seq::<Signal>::empty());
                    assert forall|bb: int|
                        0 <= bb < n as int implies ((#[trigger] bucket_halts::<T, L, F>(
                        tc0[j as int][bb],
                        fc0[j as int][bb],
                        tpad[bb],
                        fpad[bb],
                    )) <==> bb == h) by {
                        if bb >= b as int {
                            assert(run_from(start(tc0[j as int][bb]), tpad[bb]) == start(
                                tc0[j as int][bb],
                            ));
                            assert(run_from(start(fc0[j as int][bb]), fpad[bb]) == start(
                                fc0[j as int][bb],
                            ));
                        }
                    }
                    let tup = Seq::new(
                        tc0[j as int].len(),
                        |bb: int|
                            if bb <= h {
                                level_slots_after(tc0[j as int][bb], tpad[bb], kpad[bb])
                            } else {
                                tc0[j as int][bb]
                            },
                    );
                    let fup = Seq::new(
                        fc0[j as int].len(),
                        |bb: int|
                            if bb <= h && !run_from(start(tc0[j as int][bb]), tpad[bb]).halted {
                                run_from(start(fc0[j as int][bb]), fpad[bb]).items
                            } else {
                                fc0[j as int][bb]
                            },
                    );
                    assert forall|bb: int|
                        0 <= bb < n as int implies self.slot_collections()[j as int][bb]
                        == tup[bb] && self.fn_collections()[j as int][bb] == fup[bb] by {
                        if bb >= b as int {
                            assert(run_from(start(tc0[j as int][bb]), tpad[bb]) == start(
                                tc0[j as int][bb],
                            ));
                            assert(run_from(start(fc0[j as int][bb]), fpad[bb]) == start(
                                fc0[j as int][bb],
                            ));
                        }
                    }
                    assert(self.slot_collections() =~~= tc0.update(j as int, tup));
                    assert(self.fn_collections() =~~= fc0.update(j as int, fup));
                    assert(level_dispatch_hit(
                        tc0,
                        fc0,
                        self.slot_collections(),
                        self.fn_collections(),
                        *event_identifier,
                        j as int,
                        tpad,
                        kpad,
                        fpad,
                        h,
                    ));
                }
            },
            None => {
                proof {
                    assert(self.slot_collections() == tc0);
                    assert(self.fn_collections() == fc0);
                }
            },
        }
    }
}

impl<P: Ord + Clone, T: PartialEq, L: Listener<T>, F: Fn(&T) -> Option<DispatcherRequest>> Default
    for PriorityEventDispatcher<P, T, L, F> {
    /// An empty dispatcher: no identifiers, no buckets.
    fn default() -> (d: Self)
        ensures
            d.wf(),
            d.keys() == Seq::<T>::empty(),
            d.priorities() == Seq::<Seq<P>>::empty(),
            d.slot_collections() == Seq::<Seq<Seq<RcSlot<L>>>>::empty(),
            d.fn_collections() == Seq::<Seq<Seq<F>>>::empty(),
    {
        let d = PriorityEventDispatcher { events: Vec::new() };
        proof {
            assert(d.keys() =~= Seq::<T>::empty());
            assert(d.priorities() =~= Seq::<Seq<P>>::empty());
            assert(d.slot_collections() =~= Seq::<Seq<Seq<RcSlot<L>>>>::empty());
            assert(d.fn_collections() =~= Seq::<Seq<Seq<F>>>::empty());
        }
        d
    }
}

} // verus!
