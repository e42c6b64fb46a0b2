//! The priority dispatcher: listeners are grouped into priority
//! buckets per event identifier and dispatched in ascending priority
//! order; a propagation-stopping answer ends the whole pass, including
//! every later bucket.
use core::cmp::Ordering;
use vstd::laws_cmp::obeys_cmp;
use vstd::prelude::*;
use vstd::std_specs::cmp::{OrdSpec, PartialEqSpec, PartialOrdSpec};

use crate::sync::{
    execute_sync_dispatcher_requests, request_signals, ExecuteRequestsResult, PriorityDispatcherResult,
    PriorityListener,
};
use crate::walk::{complete_from, in_progress, run_from, start, step, trace_ok, Signal, WalkState};

verus! {

struct Bucket<P, L> {
    priority: P,
    listeners: Vec<L>,
}

struct PriorityEntry<T, P, L> {
    key: T,
    buckets: Vec<Bucket<P, L>>,
}

/// In charge of priority-ordered dispatch to all listeners. Each event
/// identifier owns a list of priority buckets, kept in strictly
/// ascending priority order; within a bucket, listeners stand in
/// registration order.
///
/// Lookups compare identifiers with `==` and priorities with their
/// `Ord` methods, so the contracts that pin *which* entry or bucket is
/// touched hold when those comparisons obey their specifications; what
/// happens to the touched bucket is pinned unconditionally.
pub struct PriorityDispatcher<P, T, L> {
    events: Vec<PriorityEntry<T, P, L>>,
}

/// `ks[j]` is the first key of `ks` equal to `e`.
pub open spec fn is_first_key_match<T: PartialEq>(ks: Seq<T>, e: T, j: int) -> bool {
    &&& 0 <= j < ks.len()
    &&& ks[j].eq_spec(&e)
    &&& forall|k: int| 0 <= k < j ==> !(#[trigger] ks[k]).eq_spec(&e)
}

/// No key of `ks` is equal to `e`.
pub open spec fn no_key_match<T: PartialEq>(ks: Seq<T>, e: T) -> bool {
    forall|k: int| 0 <= k < ks.len() ==> !(#[trigger] ks[k]).eq_spec(&e)
}

/// Priorities in strictly ascending order.
pub open spec fn ascending<P: Ord>(ps: Seq<P>) -> bool {
    forall|a: int, b: int| 0 <= a < b < ps.len() ==> (#[trigger] ps[a].cmp_spec(&ps[b])) is Less
}

/// Whether `sigs` is a trace the listeners themselves could produce
/// for `event`: every signal stands for a possible answer of
/// [`PriorityListener::on_event`] on the listener under the cursor at
/// that step.
pub open spec fn priority_listener_trace_ok<T, L: PriorityListener<T>>(
    event: T,
    st: WalkState<L>,
    sigs: Seq<Signal>,
) -> bool
    decreases sigs.len(),
{
    sigs.len() == 0 || {
        &&& in_progress(st)
        &&& exists|r: Option<PriorityDispatcherResult>|
            #[trigger] call_ensures(L::on_event, (&st.items[st.cursor], &event), r)
                && crate::sync::signal_of(r) == sigs.first()
        &&& priority_listener_trace_ok(event, step(st, sigs.first()), sigs.drop_first())
    }
}

/// A trace produced through an invoker that only forwards to
/// [`PriorityListener::on_event`] is a trace of the listeners
/// themselves.
pub proof fn lemma_trace_ok_priority<
    T,
    L: PriorityListener<T>,
    F: Fn(&L) -> Option<PriorityDispatcherResult>,
>(f: F, event: T, st: WalkState<L>, sigs: Seq<Signal>)
    requires
        forall|l: &L, r: Option<PriorityDispatcherResult>|
            #[trigger] call_ensures(f, (l,), r) ==> call_ensures(L::on_event, (l, &event), r),
        trace_ok(f, request_signals(), st, sigs),
    ensures
        priority_listener_trace_ok(event, st, sigs),
    decreases sigs.len(),
{
    if sigs.len() != 0 {
        let r = choose|r: Option<PriorityDispatcherResult>|
            #[trigger] call_ensures(f, (&st.items[st.cursor],), r) && request_signals()(r)
                == sigs.first();
        assert(crate::sync::signal_of(r) == sigs.first());
        lemma_trace_ok_priority(f, event, step(st, sigs.first()), sigs.drop_first());
    }
}

/// A registration joined the bucket at `b` of entry `j` (when
/// `joined`), opened a new bucket at position `b` of entry `j`, or,
/// for `j` just past the last entry, opened a fresh entry whose single
/// bucket holds only the listener.
pub open spec fn priority_registered_at<T, P, L>(
    ks0: Seq<T>,
    ps0: Seq<Seq<P>>,
    cs0: Seq<Seq<Seq<L>>>,
    ks1: Seq<T>,
    ps1: Seq<Seq<P>>,
    cs1: Seq<Seq<Seq<L>>>,
    key: T,
    listener: L,
    priority: P,
    j: int,
    b: int,
    joined: bool,
) -> bool {
    if j == ks0.len() {
        &&& ks1 == ks0.push(key)
        &&& ps1 == ps0.push(seq![priority])
        &&& cs1 == cs0.push(seq![seq![listener]])
        &&& b == 0
        &&& !joined
    } else {
        &&& 0 <= j < ks0.len()
        &&& ks1 == ks0
        &&& if joined {
            &&& 0 <= b < ps0[j].len()
            &&& ps1 == ps0
            &&& cs1 == cs0.update(j, cs0[j].update(b, cs0[j][b].push(listener)))
        } else {
            &&& 0 <= b <= ps0[j].len()
            &&& ps1 == ps0.update(j, ps0[j].insert(b, priority))
            &&& cs1 == cs0.update(j, cs0[j].insert(b, seq![listener]))
        }
    }
}

/// A dispatch pass hit entry `j`: its buckets were walked in storage
/// order, each under a trace its own listeners could produce for
/// `event`. `h` is where the pass ended: every bucket before `h` ran
/// to completion without halting, bucket `h` — if it exists — was
/// halted by a propagation-stopping answer, and every bucket after `h`
/// was left untouched, its trace empty. No other entry changed.
pub open spec fn priority_dispatch_hit<T, L: PriorityListener<T>>(
    cs0: Seq<Seq<Seq<L>>>,
    cs1: Seq<Seq<Seq<L>>>,
    event: T,
    j: int,
    sigss: Seq<Seq<Signal>>,
    h: int,
) -> bool {
    &&& 0 <= j < cs0.len()
    &&& 0 <= h <= cs0[j].len()
    &&& sigss.len() == cs0[j].len()
    &&& forall|b: int|
        0 <= b < cs0[j].len() ==> priority_listener_trace_ok(
            event,
            start(cs0[j][b]),
            #[trigger] sigss[b],
        )
    &&& forall|b: int|
        0 <= b <= h && b < cs0[j].len() ==> #[trigger] complete_from(start(cs0[j][b]), sigss[b])
    &&& forall|b: int|
        0 <= b < cs0[j].len() ==> ((#[trigger] run_from(start(cs0[j][b]), sigss[b])).halted <==> (b
            == h))
    &&& forall|b: int| h < b < cs0[j].len() ==> #[trigger] sigss[b] =~= Seq::<Signal>::empty()
    &&& cs1 == cs0.update(
        j,
        Seq::new(
            cs0[j].len(),
            |b: int|
                if b <= h {
                    run_from(start(cs0[j][b]), sigss[b]).items
                } else {
                    cs0[j][b]
                },
        ),
    )
}

/// `b` is where `p` belongs in the ascending priority list `ps`: every
/// earlier bucket is strictly smaller, and `p` joins bucket `b` when
/// it carries the same priority, or a new bucket is opened before the
/// strictly greater one.
pub open spec fn is_bucket_position<P: Ord>(ps: Seq<P>, p: P, b: int, joined: bool) -> bool {
    &&& 0 <= b <= ps.len()
    &&& forall|i: int| 0 <= i < b ==> (#[trigger] ps[i].cmp_spec(&p)) is Less
    &&& if joined {
        b < ps.len() && ps[b].cmp_spec(&p) is Equal
    } else {
        b < ps.len() ==> ps[b].cmp_spec(&p) is Greater
    }
}

/// Inserting a priority at its bucket position keeps the list
/// ascending.
pub proof fn lemma_ascending_insert<P: Ord>(ps: Seq<P>, p: P, b: int)
    requires
        obeys_cmp::<P>(),
        ascending(ps),
        is_bucket_position(ps, p, b, false),
    ensures
        ascending(ps.insert(b, p)),
{
    reveal(vstd::laws_cmp::obeys_cmp_ord);
    reveal(vstd::laws_cmp::obeys_cmp_partial_ord);
    reveal(vstd::laws_cmp::obeys_partial_cmp_spec_properties);
    let qs = ps.insert(b, p);
    assert forall|a: int, c: int| 0 <= a < c < qs.len() implies (#[trigger] qs[a].cmp_spec(
        &qs[c],
    )) is Less by {
        if a < b && c == b {
            assert(qs[a] == ps[a] && qs[c] == p);
        } else if a < b && c > b {
            assert(qs[a] == ps[a] && qs[c] == ps[c - 1]);
            if c - 1 > a {
                assert(ps[a].cmp_spec(&ps[c - 1]) is Less);
            } else {
                assert(c - 1 == b && a < b);
                assert(ps[a].cmp_spec(&p) is Less);
                assert(ps[b].cmp_spec(&p) is Greater);
                assert(ps[a].partial_cmp_spec(&p) == Some(Ordering::Less));
                assert(ps[b].partial_cmp_spec(&p) == Some(Ordering::Greater));
                assert(p.partial_cmp_spec(&ps[b]) == Some(Ordering::Less));
                assert(ps[a].partial_cmp_spec(&ps[b]) == Some(Ordering::Less));
            }
        } else if a == b {
            assert(qs[a] == p && qs[c] == ps[c - 1]);
            assert(ps[b].cmp_spec(&p) is Greater);
            assert(p.partial_cmp_spec(&ps[b]) == Some(Ordering::Less));
            if c - 1 > b {
                assert(ps[b].partial_cmp_spec(&ps[c - 1]) == Some(Ordering::Less));
                assert(p.partial_cmp_spec(&ps[c - 1]) == Some(Ordering::Less));
            }
        } else if a > b {
            assert(qs[a] == ps[a - 1] && qs[c] == ps[c - 1]);
            assert(ps[a - 1].cmp_spec(&ps[c - 1]) is Less);
        } else {
            assert(a < b && c < b);
            assert(qs[a] == ps[a] && qs[c] == ps[c]);
        }
    }
}

/// A priority pass visits the buckets in ascending priority order and
/// a propagation stop protects every lower-priority (later) bucket:
/// the buckets a well-formed dispatcher's pass walks — those up to the
/// halting one — carry strictly ascending priorities, and every bucket
/// after the halting one keeps exactly the listeners it had.
pub proof fn lemma_pass_follows_ascending_priorities<P: Ord, T, L: PriorityListener<T>>(
    ps: Seq<P>,
    cs0: Seq<Seq<Seq<L>>>,
    cs1: Seq<Seq<Seq<L>>>,
    event: T,
    j: int,
    sigss: Seq<Seq<Signal>>,
    h: int,
)
    requires
        obeys_cmp::<P>(),
        ascending(ps),
        ps.len() == cs0[j].len(),
        priority_dispatch_hit(cs0, cs1, event, j, sigss, h),
    ensures
        forall|b1: int, b2: int|
            0 <= b1 < b2 <= h && b2 < ps.len() ==> (#[trigger] ps[b1].cmp_spec(&ps[b2])) is Less,
        forall|b: int| h < b < cs0[j].len() ==> #[trigger] cs1[j][b] == cs0[j][b],
{
}

impl<P: Ord, T: PartialEq, L: PriorityListener<T>> PriorityDispatcher<P, T, L> {
    /// The registered event identifiers, in registration order.
    pub closed spec fn keys(self) -> Seq<T> {
        self.events@.map_values(|e: PriorityEntry<T, P, L>| e.key)
    }

    /// The bucket priorities of each entry, in storage order.
    pub closed spec fn priorities(self) -> Seq<Seq<P>> {
        self.events@.map_values(
            |e: PriorityEntry<T, P, L>| e.buckets@.map_values(|u: Bucket<P, L>| u.priority),
        )
    }

    /// The listener buckets of each entry, in storage order.
    pub closed spec fn collections(self) -> Seq<Seq<Seq<L>>> {
        self.events@.map_values(
            |e: PriorityEntry<T, P, L>| e.buckets@.map_values(|u: Bucket<P, L>| u.listeners@),
        )
    }

    /// The dispatcher's well-formedness: as far as `P`'s comparisons
    /// mean anything, every entry's buckets stand in strictly
    /// ascending priority order, and every entry has as many buckets
    /// as bucket priorities. Construction establishes it and every
    /// method preserves it; it is what makes "storage order" and
    /// "ascending priority order" the same thing.
    pub open spec fn wf(self) -> bool {
        &&& self.keys().len() == self.priorities().len()
        &&& self.keys().len() == self.collections().len()
        &&& forall|j: int|
            0 <= j < self.priorities().len() ==> (#[trigger] self.priorities()[j]).len()
                == self.collections()[j].len()
        &&& obeys_cmp::<P>() ==> forall|j: int|
            0 <= j < self.priorities().len() ==> ascending(#[trigger] self.priorities()[j])
    }

    /// The position of the first entry whose key equals `event`.
    fn position_of(&self, event: &T) -> (r: Option<usize>)
        ensures
            r matches Some(j) ==> j < self.keys().len(),
            T::obeys_eq_spec() ==> match r {
                Some(j) => is_first_key_match(self.keys(), *event, j as int),
                None => no_key_match(self.keys(), *event),
            },
    {
        let mut i: usize = 0;
        while i < self.events.len()
            invariant
                i <= self.events.len(),
                T::obeys_eq_spec() ==> forall|k: int|
                    0 <= k < i ==> !(#[trigger] self.keys()[k]).eq_spec(event),
            decreases self.events.len() - i,
        {
            if self.events[i].key == *event {
                return Some(i);
            }
            i = i + 1;
        }
        None
    }

    /// Adds a [`PriorityListener`] to listen for `event_key` at the
    /// given priority: it joins the bucket carrying an equal priority,
    /// or a new bucket is opened at the position that keeps the
    /// priorities ascending — before the first strictly greater one.
    /// Registration never invokes a listener.
    #[verifier::loop_isolation(false)]
    pub fn add_listener(&mut self, event_key: T, listener: L, priority: P)
        requires
            old(self).wf(),
        ensures
            final(self).wf(),
            exists|j: int, b: int, joined: bool|
                #[trigger] priority_registered_at(
                    old(self).keys(),
                    old(self).priorities(),
                    old(self).collections(),
                    final(self).keys(),
                    final(self).priorities(),
                    final(self).collections(),
                    event_key,
                    listener,
                    priority,
                    j,
                    b,
                    joined,
                ),
            obeys_cmp::<P>() && T::obeys_eq_spec() ==> forall|j: int|
                is_first_key_match(old(self).keys(), event_key, j) ==> exists|
                    b: int,
                    joined: bool,
                |
                    is_bucket_position(old(self).priorities()[j], priority, b, joined)
                        && #[trigger] priority_registered_at(
                        old(self).keys(),
                        old(self).priorities(),
                        old(self).collections(),
                        final(self).keys(),
                        final(self).priorities(),
                        final(self).collections(),
                        event_key,
                        listener,
                        priority,
                        j,
                        b,
                        joined,
                    ),
            obeys_cmp::<P>() && T::obeys_eq_spec() && no_key_match(old(self).keys(), event_key)
                ==> priority_registered_at(
                old(self).keys(),
                old(self).priorities(),
                old(self).collections(),
                final(self).keys(),
                final(self).priorities(),
                final(self).collections(),
                event_key,
                listener,
                priority,
                old(self).keys().len() as int,
                0,
                false,
            ),
    {
        let ghost ks0 = self.keys();
        let ghost ps0 = self.priorities();
        let ghost cs0 = self.collections();
        match self.position_of(&event_key) {
            Some(j) => {
                proof {
                    reveal(vstd::laws_cmp::obeys_cmp_ord);
                    reveal(vstd::laws_cmp::obeys_cmp_partial_ord);
                    reveal(vstd::laws_cmp::obeys_partial_cmp_spec_properties);
                }
                let n = self.events[j].buckets.len();
                let mut b: usize = 0;
                while b < n && self.events[j].buckets[b].priority < priority
                    invariant
                        0 <= b <= n,
                        n == self.events@[j as int].buckets@.len(),
                        j < self.events@.len(),
                        obeys_cmp::<P>() ==> forall|i: int|
                            0 <= i < b ==> (#[trigger] ps0[j as int][i].cmp_spec(
                                &priority,
                            )) is Less,
                    decreases n - b,
                {
                    proof {
                        reveal(vstd::laws_cmp::obeys_cmp_ord);
                        reveal(vstd::laws_cmp::obeys_cmp_partial_ord);
                        reveal(vstd::laws_cmp::obeys_partial_cmp_spec_properties);
                    }
                    b = b + 1;
                }
                let joined = b < n && self.events[j].buckets[b].priority == priority;
                let ghost bg = b as int;
                proof {
                    reveal(vstd::laws_cmp::obeys_cmp_ord);
                    reveal(vstd::laws_cmp::obeys_cmp_partial_ord);
                    reveal(vstd::laws_cmp::obeys_partial_cmp_spec_properties);
                    if obeys_cmp::<P>() {
                        assert(is_bucket_position(ps0[j as int], priority, bg, joined));
                    }
                }
                if joined {
                    let bucket = &mut self.events[j].buckets[b];
                    bucket.listeners.push(listener);
                    proof {
                        assert(self.keys() =~= ks0);
                        assert(self.priorities() =~~= ps0);
                        assert(self.collections() =~~= cs0.update(
                            j as int,
                            cs0[j as int].update(bg, cs0[j as int][bg].push(listener)),
                        ));
                        assert(priority_registered_at(
                            ks0,
                            ps0,
                            cs0,
                            self.keys(),
                            self.priorities(),
                            self.collections(),
                            event_key,
                            listener,
                            priority,
                            j as int,
                            bg,
                            true,
                        ));
                    }
                } else {
                    let mut ls: Vec<L> = Vec::new();
                    ls.push(listener);
                    let entry = &mut self.events[j];
                    entry.buckets.insert(b, Bucket { priority, listeners: ls });
                    proof {
                        assert(self.keys() =~= ks0);
                        assert(self.priorities() =~~= ps0.update(
                            j as int,
                            ps0[j as int].insert(bg, priority),
                        ));
                        assert(self.collections() =~~= cs0.update(
                            j as int,
                            cs0[j as int].insert(bg, seq![listener]),
                        ));
                        assert(priority_registered_at(
                            ks0,
                            ps0,
                            cs0,
                            self.keys(),
                            self.priorities(),
                            self.collections(),
                            event_key,
                            listener,
                            priority,
                            j as int,
                            bg,
                            false,
                        ));
                        if obeys_cmp::<P>() {
                            lemma_ascending_insert(ps0[j as int], priority, bg);
                        }
                    }
                }
            },
            None => {
                let mut ls: Vec<L> = Vec::new();
                ls.push(listener);
                let mut bs: Vec<Bucket<P, L>> = Vec::new();
                bs.push(Bucket { priority, listeners: ls });
                self.events.push(PriorityEntry { key: event_key, buckets: bs });
                proof {
                    assert(self.keys() =~= ks0.push(event_key));
                    assert(self.priorities() =~~= ps0.push(seq![priority]));
                    assert(self.collections() =~~= cs0.push(seq![seq![listener]]));
                    assert(priority_registered_at(
                        ks0,
                        ps0,
                        cs0,
                        self.keys(),
                        self.priorities(),
                        self.collections(),
                        event_key,
                        listener,
                        priority,
                        ks0.len() as int,
                        0,
                        false,
                    ));
                }
            },
        }
    }
    /// Every listener registered for `event_identifier` is invoked at
    /// most once per pass, bucket by bucket in ascending priority
    /// order and in storage order within a bucket, until a listener
    /// stops propagation — which ends the pass for every later bucket
    /// as well. A listener answering `StopListening` is removed from
    /// its bucket by swap-removal. Bucket priorities and other
    /// identifiers are untouched.
    #[verifier::loop_isolation(false)]
    pub fn dispatch_event(&mut self, event_identifier: &T)
        requires
            old(self).wf(),
        ensures
            final(self).wf(),
            final(self).keys() == old(self).keys(),
            final(self).priorities() == old(self).priorities(),
            (exists|j: int, sigss: Seq<Seq<Signal>>, h: int|
                #[trigger] priority_dispatch_hit(
                    old(self).collections(),
                    final(self).collections(),
                    *event_identifier,
                    j,
                    sigss,
                    h,
                )) || final(self).collections() == old(self).collections(),
            T::obeys_eq_spec() && no_key_match(old(self).keys(), *event_identifier)
                ==> final(self).collections() == old(self).collections(),
            T::obeys_eq_spec() ==> forall|j: int|
                is_first_key_match(old(self).keys(), *event_identifier, j) ==> exists|
                    sigss: Seq<Seq<Signal>>,
                    h: int,
                |
                    #[trigger] priority_dispatch_hit(
                        old(self).collections(),
                        final(self).collections(),
                        *event_identifier,
                        j,
                        sigss,
                        h,
                    ),
    {
        let ghost ks0 = self.keys();
        let ghost ps0 = self.priorities();
        let ghost cs0 = self.collections();
        match self.position_of(event_identifier) {
            Some(j) => {
                let n = self.events[j].buckets.len();
                let mut b: usize = 0;
                let mut stopped = false;
                let ghost mut sigss: Seq<Seq<Signal>> = Seq::empty();
                assert(n == cs0[j as int].len());
                while b < n && !stopped
                    invariant
                        b <= n,
                        stopped ==> 0 < b,
                        sigss.len() == b as int,
                        self.events@.len() == cs0.len(),
                        self.keys() == ks0,
                        self.priorities() =~~= ps0,
                        self.collections().len() == cs0.len(),
                        forall|jj: int|
                            0 <= jj < cs0.len() && jj != j as int
                                ==> #[trigger] self.collections()[jj] == cs0[jj],
                        self.collections()[j as int].len() == n,
                        forall|bb: int|
                            b <= bb < n ==> #[trigger] self.collections()[j as int][bb]
                                == cs0[j as int][bb],
                        forall|bb: int|
                            0 <= bb < b ==> priority_listener_trace_ok(
                                *event_identifier,
                                start(cs0[j as int][bb]),
                                #[trigger] sigss[bb],
                            ),
                        forall|bb: int|
                            0 <= bb < b ==> #[trigger] complete_from(
                                start(cs0[j as int][bb]),
                                sigss[bb],
                            ),
                        forall|bb: int|
                            0 <= bb < b ==> #[trigger] self.collections()[j as int][bb]
                                == run_from(start(cs0[j as int][bb]), sigss[bb]).items,
                        forall|bb: int|
                            0 <= bb < b ==> ((#[trigger] run_from(
                                start(cs0[j as int][bb]),
                                sigss[bb],
                            )).halted <==> (stopped && bb == b - 1)),
                    decreases n - b,
                {
                    let cb = |l: &L| -> (r: Option<PriorityDispatcherResult>)
                        ensures
                            call_ensures(L::on_event, (l, event_identifier), r),
                        { l.on_event(event_identifier) };
                    assert(forall|x: &L| #[trigger] call_requires(cb, (x,)));
                    let ghost ev0 = self.events@;
                    let ghost cprev = self.collections();
                    let ghost before = self.collections()[j as int][b as int];
                    assert(before == cs0[j as int][b as int]);
                    let bucket = &mut self.events[j].buckets[b];
                    let result = execute_sync_dispatcher_requests(&mut bucket.listeners, cb);
                    let ghost after = bucket.listeners@;
                    proof {
                        let sigs = choose|sigs: Seq<Signal>|
                            {
                                &&& trace_ok(cb, request_signals(), start(before), sigs)
                                &&& complete_from(start(before), sigs)
                                &&& after == run_from(start(before), sigs).items
                                &&& (result is Stopped <==> run_from(start(before), sigs).halted)
                            };
                        lemma_trace_ok_priority(cb, *event_identifier, start(before), sigs);
                        sigss = sigss.push(sigs);
                    }
                    match result {
                        ExecuteRequestsResult::Stopped => {
                            stopped = true;
                        },
                        ExecuteRequestsResult::Finished => {},
                    }
                    proof {
                        assert(self.events@.len() == ev0.len());
                        assert(forall|jj: int|
                            0 <= jj < ev0.len() && jj != j as int ==> #[trigger] self.events@[jj]
                                == ev0[jj]);
                        assert(self.events@[j as int].buckets@.len() == ev0[j as int].buckets@.len());
                        assert(forall|bb: int|
                            0 <= bb < n && bb != b as int
                                ==> #[trigger] self.events@[j as int].buckets@[bb] == ev0[j as int].buckets@[bb]);
                        assert(self.events@[j as int].buckets@[b as int].listeners@ == after);
                        assert(self.events@[j as int].buckets@[b as int].priority
                            == ev0[j as int].buckets@[b as int].priority);
                        assert(self.events@[j as int].key == ev0[j as int].key);
                        assert(self.keys() =~= ks0);
                        assert(self.priorities() =~~= ps0);
                        assert(self.collections() =~~= cprev.update(
                            j as int,
                            cprev[j as int].update(b as int, after),
                        ));
                    }
                    b = b + 1;
                }
                proof {
                    let h: int = if stopped {
                        b as int - 1
                    } else {
                        n as int
                    };
                    let pad = Seq::new((n - b) as nat, |i: int| Seq::<Signal>::empty());
                    let full = sigss + pad;
                    assert(full.len() == n as int);
                    assert(forall|bb: int| 0 <= bb < b as int ==> #[trigger] full[bb] == sigss[bb]);
                    assert(forall|bb: int|
                        b as int <= bb < n as int ==> #[trigger] full[bb] =~= Seq::<
                            Signal,
                        >::empty());
                    assert forall|bb: int| 0 <= bb < n as int implies priority_listener_trace_ok(
                        *event_identifier,
                        start(cs0[j as int][bb]),
                        #[trigger] full[bb],
                    ) by {
                        if bb >= b as int {
                            assert(full[bb].len() == 0);
                        }
                    }
                    assert forall|bb: int|
                        0 <= bb < n as int implies ((#[trigger] run_from(
                        start(cs0[j as int][bb]),
                        full[bb],
                    )).halted <==> (bb == h)) by {
                        if bb >= b as int {
                            assert(run_from(start(cs0[j as int][bb]), full[bb]) == start(
                                cs0[j as int][bb],
                            ));
                        }
                    }
                    let updated = Seq::new(
                        cs0[j as int].len(),
                        |bb: int|
                            if bb <= h {
                                run_from(start(cs0[j as int][bb]), full[bb]).items
                            } else {
                                cs0[j as int][bb]
                            },
                    );
                    assert forall|bb: int| 0 <= bb < n as int implies self.collections()[j as int][bb]
                        == updated[bb] by {
                        if bb >= b as int {
                            assert(run_from(start(cs0[j as int][bb]), full[bb]) == start(
                                cs0[j as int][bb],
                            ));
                        }
                    }
                    assert(self.collections() =~~= cs0.update(j as int, updated));
                    assert(priority_dispatch_hit(
                        cs0,
                        self.collections(),
                        *event_identifier,
                        j as int,
                        full,
                        h,
                    ));
                }
            },
            None => {
                proof {
                    assert(self.collections() == cs0);
                }
            },
        }
    }
}

impl<P: Ord, T: PartialEq, L: PriorityListener<T>> Default for PriorityDispatcher<P, T, L> {
    /// An empty dispatcher: no identifiers, no buckets.
    fn default() -> (d: Self)
        ensures
            d.wf(),
            d.keys() == Seq::<T>::empty(),
            d.priorities() == Seq::<Seq<P>>::empty(),
            d.collections() == Seq::<Seq<Seq<L>>>::empty(),
    {
        let d = PriorityDispatcher { events: Vec::new() };
        proof {
            assert(d.keys() =~= Seq::<T>::empty());
            assert(d.priorities() =~= Seq::<Seq<P>>::empty());
            assert(d.collections() =~= Seq::<Seq<Seq<L>>>::empty());
        }
        d
    }
}

} // verus!
