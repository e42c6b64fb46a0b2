//! The mathematical model of a dispatch pass.
//!
//! A dispatcher walks a sequence of listeners by index. Each visit
//! yields a control signal: keep the listener and move on, remove it
//! (by swapping the last element into its place), halt the pass, or
//! both. A whole pass is therefore described by the sequence of
//! signals it consumed — its *trace* — and the spec functions here say
//! what any pass does to the walked sequence, which elements it
//! visits, and which it removes.
//!
//! Batch removal, used by the parallel and concurrent dispatchers,
//! is modelled separately: indices are collected first and removed
//! afterwards, highest index first.
use vstd::multiset::Multiset;
use vstd::prelude::*;

verus! {

/// What one listener invocation asks the dispatch loop to do.
pub enum Signal {
    /// Keep the listener and move to the next one.
    Keep,
    /// Remove the listener; the cursor stays, now naming the element
    /// swapped in from the end.
    Remove,
    /// Stop the pass; the listener stays registered.
    Halt,
    /// Remove the listener, then stop the pass.
    RemoveAndHalt,
}

impl Signal {
    /// Does this signal remove the visited listener?
    pub open spec fn removes(self) -> bool {
        self is Remove || self is RemoveAndHalt
    }

    /// Does this signal end the pass early?
    pub open spec fn halts(self) -> bool {
        self is Halt || self is RemoveAndHalt
    }
}

/// The sequence after removing the element at `i` by swapping the last
/// element into its place, as `Vec::swap_remove` does.
pub open spec fn swap_removed<A>(s: Seq<A>, i: int) -> Seq<A> {
    s.update(i, s.last()).drop_last()
}

/// A walk part-way through: the listeners as currently stored, the
/// index about to be visited, and whether a signal halted the pass.
#[verifier::ext_equal]
pub struct WalkState<A> {
    pub items: Seq<A>,
    pub cursor: int,
    pub halted: bool,
}

/// The state a pass over `items` starts in.
pub open spec fn start<A>(items: Seq<A>) -> WalkState<A> {
    WalkState { items, cursor: 0, halted: false }
}

/// Whether the walk still has an element to visit.
pub open spec fn in_progress<A>(st: WalkState<A>) -> bool {
    !st.halted && st.cursor < st.items.len()
}

/// One signal applied to the element at the cursor.
pub open spec fn step<A>(st: WalkState<A>, g: Signal) -> WalkState<A> {
    match g {
        Signal::Keep => WalkState { cursor: st.cursor + 1, ..st },
        Signal::Remove => WalkState { items: swap_removed(st.items, st.cursor), ..st },
        Signal::Halt => WalkState { halted: true, ..st },
        Signal::RemoveAndHalt => WalkState {
            items: swap_removed(st.items, st.cursor),
            halted: true,
            ..st
        },
    }
}

/// The state after consuming every signal of `sigs`, starting at `st`.
pub open spec fn run_from<A>(st: WalkState<A>, sigs: Seq<Signal>) -> WalkState<A>
    decreases sigs.len(),
{
    if sigs.len() == 0 {
        st
    } else if !in_progress(st) {
        st
    } else {
        run_from(step(st, sigs.first()), sigs.drop_first())
    }
}

/// Whether every signal of `sigs` lands on a live cursor: the trace
/// never outruns the walk.
pub open spec fn live_from<A>(st: WalkState<A>, sigs: Seq<Signal>) -> bool
    decreases sigs.len(),
{
    sigs.len() == 0 || (in_progress(st) && live_from(step(st, sigs.first()), sigs.drop_first()))
}

/// A trace that carries the walk from `st` all the way to its end:
/// every signal lands on a live cursor, and afterwards nothing is left
/// to visit.
pub open spec fn complete_from<A>(st: WalkState<A>, sigs: Seq<Signal>) -> bool {
    live_from(st, sigs) && !in_progress(run_from(st, sigs))
}

/// The elements the walk visits, in visiting order.
pub open spec fn visited_from<A>(st: WalkState<A>, sigs: Seq<Signal>) -> Seq<A>
    decreases sigs.len(),
{
    if sigs.len() == 0 || !in_progress(st) {
        Seq::empty()
    } else {
        seq![st.items[st.cursor]] + visited_from(step(st, sigs.first()), sigs.drop_first())
    }
}

/// The elements the walk removes, in removal order.
pub open spec fn removed_from<A>(st: WalkState<A>, sigs: Seq<Signal>) -> Seq<A>
    decreases sigs.len(),
{
    if sigs.len() == 0 || !in_progress(st) {
        Seq::empty()
    } else if sigs.first().removes() {
        seq![st.items[st.cursor]] + removed_from(step(st, sigs.first()), sigs.drop_first())
    } else {
        removed_from(step(st, sigs.first()), sigs.drop_first())
    }
}

/// A walk state whose cursor has not run past its items.
pub open spec fn wf<A>(st: WalkState<A>) -> bool {
    0 <= st.cursor <= st.items.len()
}

/// Removing one element by swap keeps the cursor within bounds.
pub proof fn lemma_step_wf<A>(st: WalkState<A>, g: Signal)
    requires
        wf(st),
        in_progress(st),
    ensures
        wf(step(st, g)),
{
}

/// Prepending one element adds exactly one occurrence of it.
pub proof fn lemma_cons_multiset<A>(x: A, s: Seq<A>)
    ensures
        (seq![x] + s).to_multiset() == s.to_multiset().insert(x),
{
    broadcast use vstd::seq_lib::group_to_multiset_ensures;
    broadcast use vstd::multiset::group_multiset_axioms;

    assert(seq![x] + s =~= s.insert(0, x));
}

/// Swap-removal takes exactly one occurrence of the removed element
/// out of the sequence.
pub proof fn lemma_swap_removed_multiset<A>(s: Seq<A>, i: int)
    requires
        0 <= i < s.len(),
    ensures
        swap_removed(s, i).to_multiset() == s.to_multiset().remove(s[i]),
        swap_removed(s, i).len() == s.len() - 1,
{
    broadcast use vstd::seq_lib::group_to_multiset_ensures;
    broadcast use vstd::multiset::group_multiset_axioms;

    let u = s.update(i, s.last());
    assert(u.drop_last() =~= u.remove(u.len() - 1));
    if i == s.len() - 1 {
        assert(u =~= s);
        assert(swap_removed(s, i).to_multiset() == s.to_multiset().remove(s[i]));
    } else {
        assert(u.to_multiset() == s.to_multiset().insert(s.last()).remove(s[i]));
        assert(u[u.len() - 1] == s.last());
        assert(swap_removed(s, i).to_multiset() == s.to_multiset().insert(s.last()).remove(
            s[i],
        ).remove(s.last()));
        assert(s.to_multiset().insert(s.last()).remove(s[i]).remove(s.last()) =~= s.to_multiset()
            .remove(s[i]));
    }
}

/// What swap-removal does to the elements at and after the cursor.
pub proof fn lemma_swap_removed_skip_multiset<A>(s: Seq<A>, i: int)
    requires
        0 <= i < s.len(),
    ensures
        swap_removed(s, i).skip(i).to_multiset() == s.skip(i).to_multiset().remove(s[i]),
{
    let t = s.skip(i);
    assert(swap_removed(s, i).skip(i) =~= swap_removed(t, 0));
    lemma_swap_removed_multiset(t, 0);
    assert(t[0] == s[i]);
}

/// Extending a live trace by one more signal steps the resulting state
/// once and visits the element at the final cursor.
pub proof fn lemma_run_from_snoc<A>(st: WalkState<A>, sigs: Seq<Signal>, g: Signal)
    requires
        live_from(st, sigs),
        in_progress(run_from(st, sigs)),
    ensures
        live_from(st, sigs.push(g)),
        run_from(st, sigs.push(g)) == step(run_from(st, sigs), g),
        visited_from(st, sigs.push(g)) == visited_from(st, sigs).push(
            run_from(st, sigs).items[run_from(st, sigs).cursor],
        ),
        removed_from(st, sigs.push(g)) == if g.removes() {
            removed_from(st, sigs).push(run_from(st, sigs).items[run_from(st, sigs).cursor])
        } else {
            removed_from(st, sigs)
        },
    decreases sigs.len(),
{
    if sigs.len() == 0 {
        assert(run_from(st, sigs) == st);
        assert(in_progress(st));
        let one = sigs.push(g);
        let st1 = step(st, g);
        assert(one.first() == g);
        assert(one.drop_first() =~= Seq::<Signal>::empty());
        assert(run_from(st1, one.drop_first()) == st1);
        assert(live_from(st1, one.drop_first()));
        assert(visited_from(st1, one.drop_first()) =~= Seq::<A>::empty());
        assert(removed_from(st1, one.drop_first()) =~= Seq::<A>::empty());
        assert(visited_from(st, one) =~= visited_from(st, sigs).push(st.items[st.cursor]));
        if g.removes() {
            assert(removed_from(st, one) =~= removed_from(st, sigs).push(st.items[st.cursor]));
        } else {
            assert(removed_from(st, one) =~= removed_from(st, sigs));
        }
    } else {
        let st1 = step(st, sigs.first());
        assert(sigs.push(g).first() == sigs.first());
        assert(sigs.push(g).drop_first() =~= sigs.drop_first().push(g));
        lemma_run_from_snoc(st1, sigs.drop_first(), g);
        assert(visited_from(st, sigs.push(g)) =~= visited_from(st, sigs).push(
            run_from(st, sigs).items[run_from(st, sigs).cursor],
        ));
        if g.removes() {
            assert(removed_from(st, sigs.push(g)) =~= removed_from(st, sigs).push(
                run_from(st, sigs).items[run_from(st, sigs).cursor],
            ));
        } else {
            assert(removed_from(st, sigs.push(g)) =~= removed_from(st, sigs));
        }
    }
}

/// Removal accounting: after any live trace, the elements still stored
/// plus the elements removed are exactly the elements the walk began
/// with. In particular a pass never loses or duplicates a listener it
/// did not remove.
pub proof fn lemma_removal_accounting<A>(st: WalkState<A>, sigs: Seq<Signal>)
    requires
        wf(st),
        live_from(st, sigs),
    ensures
        run_from(st, sigs).items.to_multiset().add(removed_from(st, sigs).to_multiset())
            == st.items.to_multiset(),
    decreases sigs.len(),
{
    broadcast use vstd::seq_lib::group_to_multiset_ensures;
    broadcast use vstd::multiset::group_multiset_axioms;

    if sigs.len() == 0 {
        assert(removed_from(st, sigs).to_multiset() =~= Multiset::<A>::empty());
        assert(run_from(st, sigs).items.to_multiset().add(Multiset::<A>::empty())
            =~= st.items.to_multiset());
    } else {
        let g = sigs.first();
        let st1 = step(st, g);
        lemma_step_wf(st, g);
        lemma_removal_accounting(st1, sigs.drop_first());
        if g.removes() {
            let x = st.items[st.cursor];
            let rest = sigs.drop_first();
            lemma_swap_removed_multiset(st.items, st.cursor);
            assert(st1.items.to_multiset() == st.items.to_multiset().remove(x));
            assert(removed_from(st, sigs) =~= seq![x] + removed_from(st1, rest));
            lemma_cons_multiset(x, removed_from(st1, rest));
            assert(st.items.contains(x));
            assert(st.items.to_multiset().count(x) > 0);
            assert(run_from(st, sigs) == run_from(st1, rest));
            assert(run_from(st1, rest).items.to_multiset().add(
                removed_from(st1, rest).to_multiset(),
            ).count(x) == st1.items.to_multiset().count(x));
            assert(run_from(st, sigs).items.to_multiset().add(
                removed_from(st, sigs).to_multiset(),
            ) =~= run_from(st1, rest).items.to_multiset().add(
                removed_from(st1, rest).to_multiset(),
            ).insert(x));
            assert(st1.items.to_multiset().insert(x) =~= st.items.to_multiset());
            assert(run_from(st, sigs).items.to_multiset().add(
                removed_from(st, sigs).to_multiset(),
            ) =~= st.items.to_multiset());
        } else {
            assert(removed_from(st, sigs) =~= removed_from(st1, sigs.drop_first()));
            assert(run_from(st, sigs).items.to_multiset().add(
                removed_from(st, sigs).to_multiset(),
            ) =~= st.items.to_multiset());
        }
    }
}

/// Whether `sigs` is a trace the invoker `f` can actually produce:
/// every signal is `sig_of` some possible answer of `f` on the element
/// under the cursor at that step.
pub open spec fn trace_ok<A, R, F: Fn(&A) -> R>(
    f: F,
    sig_of: spec_fn(R) -> Signal,
    st: WalkState<A>,
    sigs: Seq<Signal>,
) -> bool
    decreases sigs.len(),
{
    sigs.len() == 0 || {
        &&& in_progress(st)
        &&& exists|r: R|
            #[trigger] call_ensures(f, (&st.items[st.cursor],), r) && sig_of(r) == sigs.first()
        &&& trace_ok(f, sig_of, step(st, sigs.first()), sigs.drop_first())
    }
}

/// A trace an invoker can produce, extended by one more answer it
/// gave, is still a trace it can produce.
pub proof fn lemma_trace_ok_snoc<A, R, F: Fn(&A) -> R>(
    f: F,
    sig_of: spec_fn(R) -> Signal,
    st: WalkState<A>,
    sigs: Seq<Signal>,
    r: R,
)
    requires
        trace_ok(f, sig_of, st, sigs),
        live_from(st, sigs),
        in_progress(run_from(st, sigs)),
        call_ensures(f, (&run_from(st, sigs).items[run_from(st, sigs).cursor],), r),
    ensures
        trace_ok(f, sig_of, st, sigs.push(sig_of(r))),
    decreases sigs.len(),
{
    let g = sig_of(r);
    if sigs.len() == 0 {
        assert(run_from(st, sigs) == st);
        let one = sigs.push(g);
        assert(one.first() == g);
        assert(one.drop_first() =~= Seq::<Signal>::empty());
        assert(trace_ok(f, sig_of, step(st, g), one.drop_first()));
    } else {
        let st1 = step(st, sigs.first());
        assert(sigs.push(g).first() == sigs.first());
        assert(sigs.push(g).drop_first() =~= sigs.drop_first().push(g));
        lemma_trace_ok_snoc(f, sig_of, st1, sigs.drop_first(), r);
    }
}

/// A run of signals that all keep their listener advances the cursor
/// and changes nothing: it visits the elements it passes, in storage
/// order.
pub proof fn lemma_all_keeps<A>(st: WalkState<A>, sigs: Seq<Signal>)
    requires
        wf(st),
        !st.halted,
        st.cursor + sigs.len() <= st.items.len(),
        forall|k: int| 0 <= k < sigs.len() ==> sigs[k] == Signal::Keep,
    ensures
        live_from(st, sigs),
        run_from(st, sigs).items == st.items,
        run_from(st, sigs).cursor == st.cursor + sigs.len(),
        !run_from(st, sigs).halted,
        visited_from(st, sigs) == st.items.subrange(st.cursor, st.cursor + sigs.len()),
        removed_from(st, sigs) == Seq::<A>::empty(),
    decreases sigs.len(),
{
    if sigs.len() == 0 {
        assert(visited_from(st, sigs) =~= st.items.subrange(st.cursor, st.cursor));
    } else {
        assert(sigs[0] == Signal::Keep);
        let st1 = step(st, sigs.first());
        assert(forall|k: int|
            0 <= k < sigs.drop_first().len() ==> sigs.drop_first()[k] == Signal::Keep);
        lemma_all_keeps(st1, sigs.drop_first());
        assert(visited_from(st, sigs) =~= st.items.subrange(st.cursor, st.cursor + sigs.len()));
        assert(removed_from(st, sigs) =~= Seq::<A>::empty());
    }
}

/// A pass whose first `m` listeners answer nothing and whose next
/// listener halts it visits exactly the first `m + 1` elements; the
/// rest are untouched, and the halting listener itself is removed only
/// if its signal says so.
pub proof fn lemma_keeps_then_halt<A>(items: Seq<A>, sigs: Seq<Signal>, m: int)
    requires
        0 <= m < items.len(),
        sigs.len() == m + 1,
        forall|k: int| 0 <= k < m ==> sigs[k] == Signal::Keep,
        sigs[m].halts(),
    ensures
        complete_from(start(items), sigs),
        run_from(start(items), sigs).halted,
        run_from(start(items), sigs).items == if sigs[m].removes() {
            swap_removed(items, m)
        } else {
            items
        },
        visited_from(start(items), sigs) == items.take(m + 1),
{
    let front = sigs.drop_last();
    let st0 = start(items);
    assert(forall|k: int| 0 <= k < front.len() ==> front[k] == Signal::Keep);
    lemma_all_keeps(st0, front);
    lemma_run_from_snoc(st0, front, sigs[m]);
    assert(sigs =~= front.push(sigs[m]));
    assert(run_from(st0, front).items[run_from(st0, front).cursor] == items[m]);
    assert(visited_from(st0, sigs) =~= items.subrange(0, m).push(items[m]));
    assert(items.subrange(0, m).push(items[m]) =~= items.take(m + 1));
}

/// A pass over an empty collection is a no-op: its only complete trace
/// is the empty one, and it changes nothing.
pub proof fn lemma_empty_walk_is_noop<A>(items: Seq<A>, sigs: Seq<Signal>)
    requires
        items.len() == 0,
        complete_from(start(items), sigs),
    ensures
        sigs == Seq::<Signal>::empty(),
        run_from(start(items), sigs) == start(items),
        visited_from(start(items), sigs) == Seq::<A>::empty(),
{
    assert(!in_progress(start(items)));
    if sigs.len() != 0 {
        assert(!live_from(start(items), sigs));
    }
    assert(sigs =~= Seq::<Signal>::empty());
    assert(visited_from(start(items), sigs) =~= Seq::<A>::empty());
}

/// Batch removal: the positions recorded during a concurrent pass,
/// removed highest first so that every later swap leaves the earlier
/// recorded positions in place.
pub open spec fn batch_removed<A>(s: Seq<A>, idxs: Seq<int>) -> Seq<A>
    decreases idxs.len(),
{
    if idxs.len() == 0 {
        s
    } else {
        batch_removed(swap_removed(s, idxs.first()), idxs.drop_first())
    }
}

/// Indices in strictly descending order, hence free of duplicates.
pub open spec fn strictly_descending(idxs: Seq<int>) -> bool {
    forall|i: int, j: int| 0 <= i < j < idxs.len() ==> idxs[i] > idxs[j]
}

/// Every index names a position of a sequence of length `n`.
pub open spec fn all_within(idxs: Seq<int>, n: int) -> bool {
    forall|k: int| 0 <= k < idxs.len() ==> 0 <= #[trigger] idxs[k] < n
}

/// The elements standing at the given positions.
pub open spec fn picked<A>(s: Seq<A>, idxs: Seq<int>) -> Seq<A> {
    idxs.map_values(|i: int| s[i])
}

/// The recorded positions as mathematical integers.
pub open spec fn as_ints(u: Seq<usize>) -> Seq<int> {
    u.map_values(|x: usize| x as int)
}

/// In a strictly descending sequence of positions below `n`, the
/// position at offset `k` lies below `n - k`: later removals always
/// land within the shrunken sequence.
pub proof fn lemma_descending_bound_at(idxs: Seq<int>, n: int, k: int)
    requires
        strictly_descending(idxs),
        all_within(idxs, n),
        0 <= k < idxs.len(),
    ensures
        idxs[k] <= n - 1 - k,
    decreases k,
{
    if k > 0 {
        lemma_descending_bound_at(idxs, n, k - 1);
        assert(idxs[k] < idxs[k - 1]);
    }
}

/// Removing one more, strictly lower position removes it from the
/// already-shrunken sequence.
pub proof fn lemma_batch_removed_snoc<A>(s: Seq<A>, idxs: Seq<int>, x: int)
    requires
        strictly_descending(idxs.push(x)),
        all_within(idxs.push(x), s.len() as int),
    ensures
        batch_removed(s, idxs.push(x)) == swap_removed(batch_removed(s, idxs), x),
    decreases idxs.len(),
{
    assert(forall|k: int| 0 <= k < idxs.len() ==> idxs.push(x)[k] == idxs[k]);
    assert(idxs.push(x)[idxs.len() as int] == x);
    if idxs.len() == 0 {
        assert(idxs.push(x).first() == x);
        assert(idxs.push(x).drop_first() =~= Seq::<int>::empty());
        assert(batch_removed(swap_removed(s, x), idxs.push(x).drop_first()) == swap_removed(
            s,
            x,
        ));
        assert(batch_removed(s, idxs) == s);
    } else {
        let i0 = idxs.first();
        let s1 = swap_removed(s, i0);
        assert(idxs.push(x).first() == i0);
        assert(idxs.push(x).drop_first() =~= idxs.drop_first().push(x));
        assert(strictly_descending(idxs.drop_first().push(x)));
        assert(forall|k: int|
            0 <= k < idxs.drop_first().push(x).len() ==> 0 <= #[trigger] idxs.drop_first().push(
                x,
            )[k] < i0);
        assert(all_within(idxs.drop_first().push(x), s1.len() as int));
        lemma_batch_removed_snoc(s1, idxs.drop_first(), x);
    }
}

/// Batch-removal accounting: removing the recorded positions, highest
/// first, takes out exactly the elements that stood at those positions
/// and nothing else.
pub proof fn lemma_batch_removed_accounting<A>(s: Seq<A>, idxs: Seq<int>)
    requires
        strictly_descending(idxs),
        all_within(idxs, s.len() as int),
    ensures
        batch_removed(s, idxs).len() == s.len() - idxs.len(),
        batch_removed(s, idxs).to_multiset().add(picked(s, idxs).to_multiset())
            == s.to_multiset(),
    decreases idxs.len(),
{
    broadcast use vstd::seq_lib::group_to_multiset_ensures;
    broadcast use vstd::multiset::group_multiset_axioms;

    if idxs.len() == 0 {
        assert(picked(s, idxs).to_multiset() =~= Multiset::<A>::empty());
        assert(batch_removed(s, idxs).to_multiset().add(Multiset::<A>::empty())
            =~= s.to_multiset());
    } else {
        let i0 = idxs.first();
        let rest = idxs.drop_first();
        let s1 = swap_removed(s, i0);
        lemma_swap_removed_multiset(s, i0);
        assert(forall|k: int| 0 <= k < rest.len() ==> 0 <= #[trigger] rest[k] < i0);
        assert(all_within(rest, s1.len() as int));
        lemma_batch_removed_accounting(s1, rest);
        assert(forall|j: int| 0 <= j < i0 ==> s1[j] == s[j]);
        assert(picked(s, idxs) =~= seq![s[i0]] + picked(s1, rest));
        lemma_cons_multiset(s[i0], picked(s1, rest));
        assert(batch_removed(s1, rest).to_multiset().add(picked(s1, rest).to_multiset()).count(
            s[i0],
        ) == s1.to_multiset().count(s[i0]));
        assert(batch_removed(s, idxs).to_multiset().add(picked(s, idxs).to_multiset())
            =~= batch_removed(s1, rest).to_multiset().add(picked(s1, rest).to_multiset()).insert(
            s[i0],
        ));
        assert(s.contains(s[i0]));
        assert(s.to_multiset().count(s[i0]) > 0);
        assert(s1.to_multiset().insert(s[i0]) =~= s.to_multiset());
    }
}

/// Every element a live trace leaves in place was stored when the walk
/// began: a pass invents no listener.
pub proof fn lemma_run_elements_come_from_start<A>(st: WalkState<A>, sigs: Seq<Signal>)
    requires
        wf(st),
        live_from(st, sigs),
    ensures
        forall|k: int|
            0 <= k < run_from(st, sigs).items.len() ==> st.items.contains(
                #[trigger] run_from(st, sigs).items[k],
            ),
{
    broadcast use vstd::seq_lib::group_to_multiset_ensures;
    broadcast use vstd::multiset::group_multiset_axioms;

    lemma_removal_accounting(st, sigs);
    let after = run_from(st, sigs).items;
    assert forall|k: int| 0 <= k < after.len() implies st.items.contains(#[trigger] after[k]) by {
        assert(after.contains(after[k]));
        assert(after.to_multiset().count(after[k]) > 0);
        assert(st.items.to_multiset().count(after[k]) > 0);
    }
}

/// The subsequence of `s` selected by a keep-mask, in order. Purging
/// dead capability-object slots keeps exactly the slots whose mask
/// entry is true.
pub open spec fn masked<A>(s: Seq<A>, keep: Seq<bool>) -> Seq<A>
    decreases s.len(),
{
    if s.len() == 0 {
        Seq::empty()
    } else if keep[0] {
        seq![s[0]] + masked(s.drop_first(), keep.drop_first())
    } else {
        masked(s.drop_first(), keep.drop_first())
    }
}

/// Extending a sequence and its mask by one element extends the
/// selection accordingly.
pub proof fn lemma_masked_snoc<A>(s: Seq<A>, keep: Seq<bool>, x: A, b: bool)
    requires
        s.len() == keep.len(),
    ensures
        masked(s.push(x), keep.push(b)) == if b {
            masked(s, keep).push(x)
        } else {
            masked(s, keep)
        },
    decreases s.len(),
{
    if s.len() == 0 {
        assert(s.push(x).drop_first() =~= Seq::<A>::empty());
        assert(keep.push(b).drop_first() =~= Seq::<bool>::empty());
        assert(keep.push(b)[0] == b);
        assert(s.push(x)[0] == x);
        assert(masked(s.push(x).drop_first(), keep.push(b).drop_first()) =~= Seq::<A>::empty());
        assert(masked(s, keep) =~= Seq::<A>::empty());
        if b {
            assert(masked(s.push(x), keep.push(b)) =~= masked(s, keep).push(x));
        } else {
            assert(masked(s.push(x), keep.push(b)) =~= masked(s, keep));
        }
    } else {
        assert(s.push(x).drop_first() =~= s.drop_first().push(x));
        assert(keep.push(b).drop_first() =~= keep.drop_first().push(b));
        assert(s.push(x)[0] == s[0]);
        assert(keep.push(b)[0] == keep[0]);
        lemma_masked_snoc(s.drop_first(), keep.drop_first(), x, b);
        if keep[0] {
            if b {
                assert(seq![s[0]] + masked(s.drop_first(), keep.drop_first()).push(x)
                    =~= (seq![s[0]] + masked(s.drop_first(), keep.drop_first())).push(x));
            }
        }
    }
}

/// Visit accounting: a walk never visits a pending element more often
/// than it is stored, and a walk that runs to the end without halting
/// visits every pending element exactly once.
pub proof fn lemma_visit_accounting<A>(st: WalkState<A>, sigs: Seq<Signal>)
    requires
        wf(st),
        live_from(st, sigs),
    ensures
        visited_from(st, sigs).to_multiset().subset_of(st.items.skip(st.cursor).to_multiset()),
        !in_progress(run_from(st, sigs)) && !run_from(st, sigs).halted ==> visited_from(
            st,
            sigs,
        ).to_multiset() == st.items.skip(st.cursor).to_multiset(),
    decreases sigs.len(),
{
    broadcast use vstd::seq_lib::group_to_multiset_ensures;
    broadcast use vstd::multiset::group_multiset_axioms;

    let pending = st.items.skip(st.cursor);
    if sigs.len() == 0 {
        assert(visited_from(st, sigs).to_multiset() =~= Multiset::<A>::empty());
        if !in_progress(st) && !st.halted {
            assert(pending =~= Seq::<A>::empty());
        }
    } else {
        let g = sigs.first();
        let st1 = step(st, g);
        lemma_step_wf(st, g);
        lemma_visit_accounting(st1, sigs.drop_first());
        let x = st.items[st.cursor];
        assert(visited_from(st, sigs) =~= seq![x] + visited_from(st1, sigs.drop_first()));
        lemma_cons_multiset(x, visited_from(st1, sigs.drop_first()));
        assert(pending[0] == x);
        match g {
            Signal::Keep => {
                assert(st1.items.skip(st1.cursor) =~= pending.drop_first());
                assert(pending.drop_first() =~= pending.remove(0));
                assert(pending.to_multiset() == pending.remove(0).to_multiset().insert(x));
            },
            Signal::Remove => {
                lemma_swap_removed_skip_multiset(st.items, st.cursor);
                assert(st1.items.skip(st1.cursor).to_multiset() == pending.to_multiset().remove(
                    x,
                ));
                assert(pending.contains(x));
                assert(pending.to_multiset().count(x) > 0);
                assert(pending.to_multiset() =~= pending.to_multiset().remove(x).insert(x));
            },
            Signal::Halt => {
                assert(visited_from(st1, sigs.drop_first()) =~= Seq::<A>::empty());
                assert(visited_from(st, sigs).to_multiset() =~= Multiset::<A>::empty().insert(x));
                assert(pending.contains(x));
                assert(pending.to_multiset().count(x) > 0);
            },
            Signal::RemoveAndHalt => {
                assert(visited_from(st1, sigs.drop_first()) =~= Seq::<A>::empty());
                assert(visited_from(st, sigs).to_multiset() =~= Multiset::<A>::empty().insert(x));
                assert(pending.contains(x));
                assert(pending.to_multiset().count(x) > 0);
            },
        }
    }
}

} // verus!
