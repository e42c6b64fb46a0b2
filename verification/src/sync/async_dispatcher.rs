//! The concurrent task-based dispatcher's registry and reconciliation
//! logic. Invoking the listeners as suspending tasks is the embedding
//! application's part: it reads the collection through
//! [`AsyncDispatcher::listeners_for`], runs every listener to
//! completion, and hands the positions that asked to stop listening
//! back to [`AsyncDispatcher::apply_removals`].
use vstd::prelude::*;
use vstd::std_specs::cmp::PartialEqSpec;

use crate::sync::{dedup_descending, remove_indices_descending, sort_descending};
use crate::walk::{all_within, as_ints, batch_removed, strictly_descending};
use crate::Error;

verus! {

struct AsyncEntry<T, L> {
    key: T,
    listeners: Vec<L>,
}

/// In charge of the registry behind concurrent task-based dispatch:
/// one pass invokes every listener of the matching identifier as an
/// independently suspending task, collects the positions whose answer
/// asked for removal in completion order, and removes them in one
/// batch once every task has finished.
///
/// Lookups compare identifiers with `==`, so every contract that pins
/// *which* entry is touched holds when `T`'s equality obeys its
/// specification; what happens to the touched entry is pinned
/// unconditionally.
pub struct AsyncDispatcher<T, L> {
    events: Vec<AsyncEntry<T, L>>,
}

/// `ks[j]` is the first key of `ks` equal to `e`.
pub open spec fn is_first_key_match<T: PartialEq>(ks: Seq<T>, e: T, j: int) -> bool {
    &&& 0 <= j < ks.len()
    &&& ks[j].eq_spec(&e)
    &&& forall|k: int| 0 <= k < j ==> !(#[trigger] ks[k]).eq_spec(&e)
}

/// No key of `ks` is equal to `e`.
pub open spec fn no_key_match<T: PartialEq>(ks: Seq<T>, e: T) -> bool {
    forall|k: int| 0 <= k < ks.len() ==> !(#[trigger] ks[k]).eq_spec(&e)
}

/// A registration appends `listener` to the collection at `j`, or,
/// for `j` just past the last entry, appends a new entry for `key`
/// holding only `listener`.
pub open spec fn registered_at<T, L>(
    ks0: Seq<T>,
    cs0: Seq<Seq<L>>,
    ks1: Seq<T>,
    cs1: Seq<Seq<L>>,
    key: T,
    listener: L,
    j: int,
) -> bool {
    if j == ks0.len() {
        ks1 == ks0.push(key) && cs1 == cs0.push(seq![listener])
    } else {
        &&& 0 <= j < ks0.len()
        &&& ks1 == ks0
        &&& cs1 == cs0.update(j, cs0[j].push(listener))
    }
}

/// A batch removal hit the collection at `j`: the positions removed —
/// highest first, each once — are exactly the requested positions
/// that name a listener of that collection. No other entry changed.
pub open spec fn removal_hit<L>(
    cs0: Seq<Seq<L>>,
    cs1: Seq<Seq<L>>,
    j: int,
    requested: Seq<usize>,
    idxs: Seq<int>,
) -> bool {
    &&& 0 <= j < cs0.len()
    &&& strictly_descending(idxs)
    &&& all_within(idxs, cs0[j].len() as int)
    &&& forall|i: int|
        #![trigger idxs.contains(i)]
        idxs.contains(i) <==> (0 <= i < cs0[j].len() && requested.contains(i as usize))
    &&& cs1 == cs0.update(j, batch_removed(cs0[j], idxs))
}

/// Keeps the positions below `n`, preserving the descending order.
#[verifier::loop_isolation(false)]
fn filter_below(v: &Vec<usize>, n: usize) -> (r: Vec<usize>)
    requires
        strictly_descending(as_ints(v@)),
    ensures
        strictly_descending(as_ints(r@)),
        all_within(as_ints(r@), n as int),
        forall|x: usize| #![trigger r@.contains(x)] r@.contains(x) <==> (v@.contains(x) && x < n),
{
    let mut out: Vec<usize> = Vec::new();
    let mut i: usize = 0;
    while i < v.len()
        invariant
            i <= v@.len(),
            strictly_descending(as_ints(out@)),
            all_within(as_ints(out@), n as int),
            forall|k: int|
                0 <= k < out@.len() ==> v@.contains(#[trigger] out@[k]) && out@[k] < n,
            forall|k: int| 0 <= k < i && v@[k] < n ==> out@.contains(#[trigger] v@[k]),
            out@.len() > 0 ==> exists|prev: int| 0 <= prev < i && out@.last() == #[trigger] v@[prev],
        decreases v@.len() - i,
    {
        let x = v[i];
        let ghost before = out@;
        if x < n {
            out.push(x);
            proof {
                assert(out@[out@.len() - 1] == x);
                assert(out@.contains(x));
                assert forall|a: int, b: int| 0 <= a < b < out@.len() implies as_ints(out@)[a]
                    > as_ints(out@)[b] by {
                    if b == out@.len() - 1 {
                        assert(out@[a] == before[a]);
                        assert(out@[b] == x);
                        let prev = choose|prev: int| 0 <= prev < i && before.last() == v@[prev];
                        assert(as_ints(v@)[prev] > as_ints(v@)[i as int]);
                        if a < before.len() - 1 {
                            assert(as_ints(before)[a] > as_ints(before)[before.len() - 1]);
                        }
                    } else {
                        assert(out@[a] == before[a]);
                        assert(out@[b] == before[b]);
                        assert(as_ints(before)[a] > as_ints(before)[b]);
                    }
                }
                assert forall|k: int|
                    0 <= k < i + 1 && v@[k] < n implies out@.contains(#[trigger] v@[k]) by {
                    if k < i {
                        assert(before.contains(v@[k]));
                        let w = choose|w: int| 0 <= w < before.len() && before[w] == v@[k];
                        assert(out@[w] == v@[k]);
                    } else {
                        assert(out@.contains(x));
                    }
                }
            }
        }
        i = i + 1;
    }
    proof {
        assert forall|x: usize|
            #![trigger out@.contains(x)]
            out@.contains(x) <==> (v@.contains(x) && x < n) by {
            if out@.contains(x) {
                let w = choose|w: int| 0 <= w < out@.len() && out@[w] == x;
                assert(v@.contains(out@[w]));
            }
            if v@.contains(x) && x < n {
                let w = choose|w: int| 0 <= w < v@.len() && v@[w] == x;
                assert(out@.contains(v@[w]));
            }
        }
    }
    out
}

impl<T: PartialEq, L> AsyncDispatcher<T, L> {
    /// The registered event identifiers, in registration order.
    pub closed spec fn keys(self) -> Seq<T> {
        self.events@.map_values(|e: AsyncEntry<T, L>| e.key)
    }

    /// The listener collections, one per registered identifier.
    pub closed spec fn collections(self) -> Seq<Seq<L>> {
        self.events@.map_values(|e: AsyncEntry<T, L>| e.listeners@)
    }

    /// There is exactly one listener collection per registered
    /// identifier.
    pub proof fn lemma_registry_consistent(self)
        ensures
            self.keys().len() == self.collections().len(),
    {
    }

    /// Creates a concurrent dispatcher with no registrations. The
    /// degree of concurrency belongs to the embedding runtime, so
    /// construction always succeeds.
    pub fn new() -> (r: Result<Self, Error>)
        ensures
            r is Ok,
            r matches Ok(d) ==> d.keys() == Seq::<T>::empty() && d.collections() == Seq::<
                Seq<L>,
            >::empty(),
    {
        let d = AsyncDispatcher { events: Vec::new() };
        proof {
            assert(d.keys() =~= Seq::<T>::empty());
            assert(d.collections() =~= Seq::<Seq<L>>::empty());
        }
        Ok(d)
    }

    /// The position of the first entry whose key equals `event`.
    fn position_of(&self, event: &T) -> (r: Option<usize>)
        ensures
            r matches Some(j) ==> j < self.keys().len(),
            T::obeys_eq_spec() ==> match r {
                Some(j) => is_first_key_match(self.keys(), *event, j as int),
                None => no_key_match(self.keys(), *event),
            },
    {
        let mut i: usize = 0;
        while i < self.events.len()
            invariant
                i <= self.events.len(),
                T::obeys_eq_spec() ==> forall|k: int|
                    0 <= k < i ==> !(#[trigger] self.keys()[k]).eq_spec(event),
            decreases self.events.len() - i,
        {
            if self.events[i].key == *event {
                return Some(i);
            }
            i = i + 1;
        }
        None
    }

    /// Adds a listener to listen for `event_key`: it is appended to
    /// the collection of the first entry whose key equals `event_key`,
    /// or to a fresh entry. Registration never invokes a listener.
    pub fn add_listener(&mut self, event_key: T, listener: L)
        ensures
            exists|j: int|
                #[trigger] registered_at(
                    old(self).keys(),
                    old(self).collections(),
                    final(self).keys(),
                    final(self).collections(),
                    event_key,
                    listener,
                    j,
                ),
            T::obeys_eq_spec() ==> forall|j: int|
                is_first_key_match(old(self).keys(), event_key, j) ==> registered_at(
                    old(self).keys(),
                    old(self).collections(),
                    final(self).keys(),
                    final(self).collections(),
                    event_key,
                    listener,
                    j,
                ),
            T::obeys_eq_spec() && no_key_match(old(self).keys(), event_key) ==> registered_at(
                old(self).keys(),
                old(self).collections(),
                final(self).keys(),
                final(self).collections(),
                event_key,
                listener,
                old(self).keys().len() as int,
            ),
    {
        let ghost ks0 = self.keys();
        let ghost cs0 = self.collections();
        match self.position_of(&event_key) {
            Some(j) => {
                let entry = &mut self.events[j];
                entry.listeners.push(listener);
                proof {
                    assert(self.keys() =~= ks0);
                    assert(self.collections() =~= cs0.update(j as int, cs0[j as int].push(
                        listener,
                    )));
                    assert(registered_at(
                        ks0,
                        cs0,
                        self.keys(),
                        self.collections(),
                        event_key,
                        listener,
                        j as int,
                    ));
                }
            },
            None => {
                let mut ls: Vec<L> = Vec::new();
                ls.push(listener);
                self.events.push(AsyncEntry { key: event_key, listeners: ls });
                proof {
                    assert(self.keys() =~= ks0.push(event_key));
                    assert(self.collections() =~= cs0.push(seq![listener]));
                    assert(registered_at(
                        ks0,
                        cs0,
                        self.keys(),
                        self.collections(),
                        event_key,
                        listener,
                        ks0.len() as int,
                    ));
                }
            },
        }
    }

    /// The collection registered for `event_identifier`, if any: what
    /// a concurrent pass spawns one task per element of.
    pub fn listeners_for(&self, event_identifier: &T) -> (r: Option<&Vec<L>>)
        ensures
            r matches Some(v) ==> exists|j: int|
                0 <= j < self.collections().len() && v@ == #[trigger] self.collections()[j],
            T::obeys_eq_spec() ==> match r {
                Some(v) => exists|j: int|
                    #[trigger] is_first_key_match(self.keys(), *event_identifier, j) && v@
                        == self.collections()[j],
                None => no_key_match(self.keys(), *event_identifier),
            },
    {
        match self.position_of(event_identifier) {
            Some(j) => {
                let r = &self.events[j].listeners;
                proof {
                    assert(r@ == self.collections()[j as int]);
                }
                Some(r)
            },
            None => None,
        }
    }

    /// Applies the outcome of one concurrent pass: removes, from the
    /// collection registered for `event_identifier`, exactly the
    /// listeners standing at the requested positions, highest first —
    /// a request naming no listener is ignored, and repeats count
    /// once. Other identifiers are untouched.
    pub fn apply_removals(&mut self, event_identifier: &T, to_remove: Vec<usize>)
        ensures
            final(self).keys() == old(self).keys(),
            (exists|j: int, idxs: Seq<int>|
                #[trigger] removal_hit(
                    old(self).collections(),
                    final(self).collections(),
                    j,
                    to_remove@,
                    idxs,
                )) || final(self).collections() == old(self).collections(),
            T::obeys_eq_spec() && no_key_match(old(self).keys(), *event_identifier)
                ==> final(self).collections() == old(self).collections(),
            T::obeys_eq_spec() ==> forall|j: int|
                is_first_key_match(old(self).keys(), *event_identifier, j) ==> exists|
                    idxs: Seq<int>,
                |
                    #[trigger] removal_hit(
                        old(self).collections(),
                        final(self).collections(),
                        j,
                        to_remove@,
                        idxs,
                    ),
    {
        let ghost ks0 = self.keys();
        let ghost cs0 = self.collections();
        let ghost req = to_remove@;
        match self.position_of(event_identifier) {
            Some(j) => {
                let mut recorded = to_remove;
                sort_descending(&mut recorded);
                let ghost sorted = recorded@;
                let recorded = dedup_descending(&recorded);
                let ghost deduped = recorded@;
                let recorded = filter_below(&recorded, self.events[j].listeners.len());
                let ghost used = as_ints(recorded@);
                let entry = &mut self.events[j];
                remove_indices_descending(&mut entry.listeners, &recorded);
                let ghost after = entry.listeners@;
                proof {
                    broadcast use vstd::seq_lib::group_to_multiset_ensures;
                    broadcast use vstd::multiset::group_multiset_axioms;

                    assert(self.keys() =~= ks0);
                    assert(self.collections() =~= cs0.update(j as int, after));
                    assert forall|x: usize|
                        #![trigger sorted.contains(x)]
                        #![trigger req.contains(x)]
                        sorted.contains(x) <==> req.contains(x) by {
                        assert(sorted.to_multiset().count(x) == req.to_multiset().count(x));
                    }
                    assert forall|i: int|
                        #![trigger used.contains(i)]
                        used.contains(i) <==> (0 <= i < cs0[j as int].len() && req.contains(
                            i as usize,
                        )) by {
                        if used.contains(i) {
                            let w = choose|w: int| 0 <= w < used.len() && used[w] == i;
                            assert(recorded@[w] == i as usize);
                            assert(recorded@.contains(recorded@[w]));
                            assert(deduped.contains(recorded@[w]));
                            assert(sorted.contains(recorded@[w]));
                        }
                        if 0 <= i < cs0[j as int].len() && req.contains(i as usize) {
                            assert(sorted.contains(i as usize));
                            assert(deduped.contains(i as usize));
                            assert(recorded@.contains(i as usize));
                            let w = choose|w: int|
                                0 <= w < recorded@.len() && recorded@[w] == i as usize;
                            assert(used[w] == i);
                            assert(used.contains(i));
                        }
                    }
                    assert(removal_hit(cs0, self.collections(), j as int, req, used));
                }
            },
            None => {
                proof {
                    assert(self.collections() == cs0);
                }
            },
        }
    }
}

} // verus!
