//! Waiting for a list of requests that complete in any order: which of them
//! are still pending, what each one came back with, and the outcomes in the
//! order of the list once every one is in.

use vstd::prelude::*;

verus! {

/// What one look at a pending request found.
pub enum PollOutcome<T, E> {
    /// It completed with a value.
    Ready(T),
    /// It is still running.
    NotReady,
    /// It failed with an error.
    Failed(E),
}

/// The state of a list of requests: for each, in the order of the list,
/// nothing while it is pending, and its outcome once it has completed.
pub struct JoinProgress<T, E> {
    slots: Vec<Option<Result<T, E>>>,
}

impl<T, E> View for JoinProgress<T, E> {
    type V = Seq<Option<Result<T, E>>>;

    closed spec fn view(&self) -> Seq<Option<Result<T, E>>> {
        self.slots@
    }
}

/// The slots after a look at request `idx` found `outcome`: a request that
/// has completed keeps its outcome; a pending one takes a value or an error,
/// and stays pending when it is not ready.
pub open spec fn after_poll<T, E>(
    slots: Seq<Option<Result<T, E>>>,
    idx: int,
    outcome: PollOutcome<T, E>,
) -> Seq<Option<Result<T, E>>> {
    if slots[idx] is Some {
        slots
    } else {
        match outcome {
            PollOutcome::Ready(v) => slots.update(idx, Some(Ok(v))),
            PollOutcome::Failed(e) => slots.update(idx, Some(Err(e))),
            PollOutcome::NotReady => slots,
        }
    }
}

/// Every request has completed.
pub open spec fn all_completed<T, E>(slots: Seq<Option<Result<T, E>>>) -> bool {
    forall|i: int| 0 <= i < slots.len() ==> #[trigger] slots[i] is Some
}

/// The outcomes of the requests, in the order of the list.
pub open spec fn outcomes<T, E>(slots: Seq<Option<Result<T, E>>>) -> Seq<Result<T, E>> {
    slots.map_values(|o: Option<Result<T, E>>| o->0)
}

/// What a slot holds after a look at its request found `outcome`: an
/// outcome it already has, else the value or error found, else nothing.
pub open spec fn settle<T, E>(slot: Option<Result<T, E>>, outcome: PollOutcome<T, E>) -> Option<
    Result<T, E>,
> {
    if slot is Some {
        slot
    } else {
        match outcome {
            PollOutcome::Ready(v) => Some(Ok(v)),
            PollOutcome::Failed(e) => Some(Err(e)),
            PollOutcome::NotReady => None,
        }
    }
}

/// `idxs` lists the pending requests, each once, in the order of the list.
pub open spec fn is_pending_list<T, E>(slots: Seq<Option<Result<T, E>>>, idxs: Seq<usize>) -> bool {
    &&& forall|m: int| 0 <= m < idxs.len() ==> #[trigger] idxs[m] < slots.len() && slots[idxs[m] as int] is None
    &&& forall|i: int| 0 <= i < slots.len() && #[trigger] slots[i] is None ==> idxs.contains(i as usize)
    &&& forall|a: int, b: int| 0 <= a < b < idxs.len() ==> #[trigger] idxs[a] < #[trigger] idxs[b]
}

/// The slots after one round: the looks at requests `idxs` found
/// `found`, recorded in that order.
pub open spec fn after_round<T, E>(
    slots: Seq<Option<Result<T, E>>>,
    idxs: Seq<usize>,
    found: Seq<PollOutcome<T, E>>,
) -> Seq<Option<Result<T, E>>>
    decreases idxs.len(),
{
    if idxs.len() == 0 || found.len() == 0 {
        slots
    } else {
        after_poll(
            after_round(slots, idxs.drop_last(), found.drop_last()),
            idxs.last() as int,
            found.last(),
        )
    }
}

impl<T, E> JoinProgress<T, E> {
    /// `n` requests, all pending.
    pub fn new(n: usize) -> (p: Self)
        ensures
            p@.len() == n,
            forall|i: int| 0 <= i < n ==> #[trigger] p@[i] is None,
    {
        let mut slots: Vec<Option<Result<T, E>>> = Vec::new();
        let mut i: usize = 0;
        while i < n
            invariant
                i <= n,
                slots@.len() == i,
                forall|k: int| 0 <= k < i ==> #[trigger] slots@[k] is None,
            decreases n - i,
        {
            slots.push(None);
            i = i + 1;
        }
        JoinProgress { slots }
    }

    /// The number of requests.
    pub fn len(&self) -> (n: usize)
        ensures
            n == self@.len(),
    {
        self.slots.len()
    }

    /// Whether request `idx` is still pending.
    pub fn is_pending(&self, idx: usize) -> (pending: bool)
        requires
            idx < self@.len(),
        ensures
            pending == (self@[idx as int] is None),
    {
        self.slots[idx].is_none()
    }

    /// Records what a look at request `idx` found, and tells whether it is
    /// still pending afterwards. A request that has completed keeps its
    /// outcome.
    pub fn record(&mut self, idx: usize, outcome: PollOutcome<T, E>) -> (pending: bool)
        requires
            idx < old(self)@.len(),
        ensures
            final(self)@ == after_poll(old(self)@, idx as int, outcome),
            pending == (final(self)@[idx as int] is None),
    {
        if self.slots[idx].is_some() {
            return false;
        }
        match outcome {
            PollOutcome::Ready(v) => {
                self.slots.set(idx, Some(Ok(v)));
                false
            },
            PollOutcome::Failed(e) => {
                self.slots.set(idx, Some(Err(e)));
                false
            },
            PollOutcome::NotReady => true,
        }
    }

    /// The pending requests, in the order of the list: the ones a round
    /// looks at.
    pub fn pending_indices(&self) -> (idxs: Vec<usize>)
        ensures
            is_pending_list(self@, idxs@),
    {
        let mut idxs: Vec<usize> = Vec::new();
        let mut i: usize = 0;
        while i < self.slots.len()
            invariant
                i <= self@.len(),
                forall|m: int| 0 <= m < idxs@.len() ==> #[trigger] idxs@[m] < i && self@[idxs@[m] as int] is None,
                forall|k: int| 0 <= k < i && #[trigger] self@[k] is None ==> idxs@.contains(k as usize),
                forall|a: int, b: int| 0 <= a < b < idxs@.len() ==> #[trigger] idxs@[a] < #[trigger] idxs@[b],
            decreases self@.len() - i,
        {
            if self.slots[i].is_none() {
                let ghost before = idxs@;
                idxs.push(i);
                proof {
                    assert forall|k: int| 0 <= k < i + 1 && #[trigger] self@[k] is None implies idxs@.contains(k as usize) by {
                        if k < i {
                            let w = choose|w: int| 0 <= w < before.len() && before[w] == k as usize;
                            assert(idxs@[w] == k as usize);
                        } else {
                            assert(idxs@[before.len() as int] == k as usize);
                        }
                    }
                }
            }
            i = i + 1;
        }
        idxs
    }

    /// Records one round: the looks at requests `idxs` found `found`, in
    /// that order. Once every request has completed, hands out their
    /// outcomes in the order of the list and leaves no request behind;
    /// otherwise hands out nothing and keeps the recorded state.
    pub fn complete_round(&mut self, idxs: &Vec<usize>, found: Vec<PollOutcome<T, E>>) -> (r: Option<
        Vec<Result<T, E>>,
    >)
        requires
            idxs@.len() == found@.len(),
            forall|m: int| 0 <= m < idxs@.len() ==> #[trigger] idxs@[m] < old(self)@.len(),
        ensures
            all_completed(after_round(old(self)@, idxs@, found@)) ==> (r matches Some(v) && v@
                == outcomes(after_round(old(self)@, idxs@, found@)) && final(self)@.len() == 0),
            !all_completed(after_round(old(self)@, idxs@, found@)) ==> r is None && final(self)@
                == after_round(old(self)@, idxs@, found@),
    {
        let ghost start = self@;
        let ghost all_found = found@;
        let mut found = found;
        let mut k: usize = 0;
        while k < idxs.len()
            invariant
                idxs@.len() == all_found.len(),
                forall|m: int| 0 <= m < idxs@.len() ==> #[trigger] idxs@[m] < start.len(),
                k <= idxs@.len(),
                found@ == all_found.skip(k as int),
                self@.len() == start.len(),
                self@ == after_round(start, idxs@.take(k as int), all_found.take(k as int)),
            decreases idxs@.len() - k,
        {
            let ghost before = self@;
            let outcome = found.remove(0);
            assert(outcome == all_found[k as int]);
            let idx = idxs[k];
            self.record(idx, outcome);
            assert(idxs@.take(k + 1).drop_last() =~= idxs@.take(k as int));
            assert(all_found.take(k + 1).drop_last() =~= all_found.take(k as int));
            assert(found@ =~= all_found.skip(k + 1));
            k = k + 1;
        }
        assert(idxs@.take(idxs@.len() as int) =~= idxs@);
        assert(all_found.take(all_found.len() as int) =~= all_found);
        self.take_results()
    }

    /// Whether every request has completed.
    pub fn all_done(&self) -> (done: bool)
        ensures
            done == all_completed(self@),
    {
        let mut i: usize = 0;
        while i < self.slots.len()
            invariant
                i <= self@.len(),
                forall|k: int| 0 <= k < i ==> #[trigger] self@[k] is Some,
            decreases self@.len() - i,
        {
            if self.slots[i].is_none() {
                return false;
            }
            i = i + 1;
        }
        true
    }

    /// Once every request has completed, hands out their outcomes in the
    /// order of the list and leaves no request behind; while one is pending,
    /// hands out nothing and changes nothing.
    pub fn take_results(&mut self) -> (r: Option<Vec<Result<T, E>>>)
        ensures
            all_completed(old(self)@) ==> (r matches Some(v) && v@ == outcomes(old(self)@)
                && final(self)@.len() == 0),
            !all_completed(old(self)@) ==> r is None && final(self)@ == old(self)@,
    {
        if !self.all_done() {
            return None;
        }
        let ghost all = self.slots@;
        let mut slots: Vec<Option<Result<T, E>>> = Vec::new();
        std::mem::swap(&mut slots, &mut self.slots);
        let mut results: Vec<Result<T, E>> = Vec::new();
        while slots.len() > 0
            invariant
                all_completed(all),
                results@.len() + slots@.len() == all.len(),
                slots@ == all.skip(results@.len() as int),
                results@ == outcomes(all).take(results@.len() as int),
            decreases slots@.len(),
        {
            let ghost before = slots@;
            let ghost k = results@.len() as int;
            let slot = slots.remove(0);
            assert(slot == all[k]);
            assert(all[k] is Some);
            match slot {
                Some(outcome) => {
                    results.push(outcome);
                },
                None => {},
            }
            assert(slots@ =~= all.skip(k + 1));
            assert(results@ =~= outcomes(all).take(k + 1));
        }
        assert(results@ =~= outcomes(all));
        Some(results)
    }
}

/// Looks at two different requests may be recorded in either order: the
/// state that comes out is the same, so the outcomes do not depend on the
/// order in which the requests complete.
pub proof fn lemma_polls_commute<T, E>(
    slots: Seq<Option<Result<T, E>>>,
    i: int,
    a: PollOutcome<T, E>,
    j: int,
    b: PollOutcome<T, E>,
)
    requires
        0 <= i < slots.len(),
        0 <= j < slots.len(),
        i != j,
    ensures
        after_poll(after_poll(slots, i, a), j, b) == after_poll(after_poll(slots, j, b), i, a),
{
    let l = after_poll(after_poll(slots, i, a), j, b);
    let r = after_poll(after_poll(slots, j, b), i, a);
    assert(l =~= r);
}

/// A request that has completed keeps its outcome whatever later looks at
/// it find.
pub proof fn lemma_completed_keeps_outcome<T, E>(
    slots: Seq<Option<Result<T, E>>>,
    i: int,
    outcome: PollOutcome<T, E>,
)
    requires
        0 <= i < slots.len(),
        slots[i] is Some,
    ensures
        after_poll(slots, i, outcome) == slots,
{
}

/// A look records `settle` of the slot it looks at, and nothing else.
pub proof fn lemma_poll_settles<T, E>(slots: Seq<Option<Result<T, E>>>, i: int, outcome: PollOutcome<T, E>)
    requires
        0 <= i < slots.len(),
    ensures
        after_poll(slots, i, outcome) == slots.update(i, settle(slots[i], outcome)),
{
    assert(after_poll(slots, i, outcome) =~= slots.update(i, settle(slots[i], outcome)));
}

/// In a round over distinct requests, each request looked at ends with
/// `settle` of what it held and what was found for it (a value or an error
/// lands in its own slot only); the others keep what they held.
pub proof fn lemma_round_settles_each_slot<T, E>(
    slots: Seq<Option<Result<T, E>>>,
    idxs: Seq<usize>,
    found: Seq<PollOutcome<T, E>>,
)
    requires
        idxs.len() == found.len(),
        forall|m: int| 0 <= m < idxs.len() ==> #[trigger] idxs[m] < slots.len(),
        forall|a: int, b: int| 0 <= a < b < idxs.len() ==> #[trigger] idxs[a] != #[trigger] idxs[b],
    ensures
        after_round(slots, idxs, found).len() == slots.len(),
        forall|m: int|
            0 <= m < idxs.len() ==> #[trigger] after_round(slots, idxs, found)[idxs[m] as int] == settle(
                slots[idxs[m] as int],
                found[m],
            ),
        forall|i: int|
            0 <= i < slots.len() && !idxs.contains(i as usize) ==> #[trigger] after_round(slots, idxs, found)[i]
                == slots[i],
    decreases idxs.len(),
{
    if idxs.len() > 0 {
        let pi = idxs.drop_last();
        let pf = found.drop_last();
        let last = idxs.len() - 1;
        lemma_round_settles_each_slot(slots, pi, pf);
        let mid = after_round(slots, pi, pf);
        lemma_poll_settles(mid, idxs[last] as int, found[last]);
        assert(!pi.contains(idxs[last])) by {
            if pi.contains(idxs[last]) {
                let w = choose|w: int| 0 <= w < pi.len() && pi[w] == idxs[last];
                assert(idxs[w] != idxs[last]);
            }
        }
        assert(mid[idxs[last] as int] == slots[idxs[last] as int]);
        let res = after_round(slots, idxs, found);
        assert forall|m: int| 0 <= m < idxs.len() implies #[trigger] res[idxs[m] as int] == settle(
            slots[idxs[m] as int],
            found[m],
        ) by {
            if m < last {
                assert(pi[m] == idxs[m]);
                assert(pf[m] == found[m]);
                assert(idxs[m] != idxs[last]);
                assert(mid[pi[m] as int] == settle(slots[pi[m] as int], pf[m]));
            }
        }
        assert forall|i: int| 0 <= i < slots.len() && !idxs.contains(i as usize) implies #[trigger] res[i]
            == slots[i] by {
            if pi.contains(i as usize) {
                let w = choose|w: int| 0 <= w < pi.len() && pi[w] == i as usize;
                assert(idxs[w] == i as usize);
            }
            assert(i != idxs[last] as int);
        }
    }
}

/// One round in which every pending request is looked at: each slot ends
/// with `settle` of what it held and what `found_for` gives for it.
pub open spec fn full_round<T, E>(
    slots: Seq<Option<Result<T, E>>>,
    found_for: spec_fn(int) -> PollOutcome<T, E>,
) -> Seq<Option<Result<T, E>>> {
    Seq::new(slots.len(), |k: int| settle(slots[k], found_for(k)))
}

/// A round over the pending list, with what was found for each, is the full
/// round: completed requests are not looked at and keep their outcomes.
pub proof fn lemma_pending_round_is_full_round<T, E>(
    slots: Seq<Option<Result<T, E>>>,
    idxs: Seq<usize>,
    found_for: spec_fn(int) -> PollOutcome<T, E>,
)
    requires
        slots.len() <= usize::MAX,
        is_pending_list(slots, idxs),
    ensures
        after_round(slots, idxs, idxs.map_values(|k: usize| found_for(k as int))) == full_round(
            slots,
            found_for,
        ),
{
    let found = idxs.map_values(|k: usize| found_for(k as int));
    assert forall|a: int, b: int| 0 <= a < b < idxs.len() implies #[trigger] idxs[a] != #[trigger] idxs[b] by {
        assert(idxs[a] < idxs[b]);
    }
    lemma_round_settles_each_slot(slots, idxs, found);
    let res = after_round(slots, idxs, found);
    let full = full_round(slots, found_for);
    assert forall|k: int| 0 <= k < slots.len() implies #[trigger] res[k] == full[k] by {
        if idxs.contains(k as usize) {
            let m = choose|m: int| 0 <= m < idxs.len() && idxs[m] == k as usize;
            assert(idxs[m] as int == k);
            assert(found[m] == found_for(idxs[m] as int));
            assert(res[idxs[m] as int] == settle(slots[idxs[m] as int], found[m]));
        } else {
            if slots[k] is None {
                assert(idxs.contains(k as usize));
            }
            assert(slots[k] is Some);
        }
    }
    assert(res =~= full);
}

/// The slots after `r` full rounds, where `found_at(n, k)` is what the look
/// at request `k` in round `n` finds.
pub open spec fn after_rounds<T, E>(
    slots: Seq<Option<Result<T, E>>>,
    found_at: spec_fn(int, int) -> PollOutcome<T, E>,
    r: nat,
) -> Seq<Option<Result<T, E>>>
    decreases r,
{
    if r == 0 {
        slots
    } else {
        full_round(after_rounds(slots, found_at, (r - 1) as nat), |k: int| found_at(r - 1, k))
    }
}

proof fn lemma_completed_after_round<T, E>(
    slots: Seq<Option<Result<T, E>>>,
    found_at: spec_fn(int, int) -> PollOutcome<T, E>,
    k: int,
    r: nat,
    m: nat,
)
    requires
        0 <= k < slots.len(),
        r < m,
        !(found_at(r as int, k) is NotReady),
    ensures
        after_rounds(slots, found_at, m).len() == slots.len(),
        after_rounds(slots, found_at, m)[k] is Some,
    decreases m,
{
    lemma_rounds_keep_length(slots, found_at, (m - 1) as nat);
    if r < m - 1 {
        lemma_completed_after_round(slots, found_at, k, r, (m - 1) as nat);
    }
}

proof fn lemma_rounds_keep_length<T, E>(
    slots: Seq<Option<Result<T, E>>>,
    found_at: spec_fn(int, int) -> PollOutcome<T, E>,
    r: nat,
)
    ensures
        after_rounds(slots, found_at, r).len() == slots.len(),
    decreases r,
{
    if r > 0 {
        lemma_rounds_keep_length(slots, found_at, (r - 1) as nat);
    }
}

/// Request `k` completes by its `m`-th look: some look among the first `m`
/// finds a value or an error.
pub open spec fn completes_within<T, E>(found_at: spec_fn(int, int) -> PollOutcome<T, E>, k: int, m: nat) -> bool {
    exists|r: int| 0 <= r < m && !(#[trigger] found_at(r, k) is NotReady)
}

/// When each request completes by its `m`-th look, every request has
/// completed after `m` rounds, so the round that hands out the outcomes is
/// at most the `m`-th.
pub proof fn lemma_completes_within_rounds<T, E>(
    slots: Seq<Option<Result<T, E>>>,
    found_at: spec_fn(int, int) -> PollOutcome<T, E>,
    m: nat,
)
    requires
        forall|k: int| 0 <= k < slots.len() ==> #[trigger] completes_within(found_at, k, m),
    ensures
        all_completed(after_rounds(slots, found_at, m)),
{
    lemma_rounds_keep_length(slots, found_at, m);
    assert forall|k: int| 0 <= k < after_rounds(slots, found_at, m).len() implies #[trigger] after_rounds(
        slots,
        found_at,
        m,
    )[k] is Some by {
        assert(completes_within(found_at, k, m));
        let r = choose|r: int| 0 <= r < m && !(#[trigger] found_at(r, k) is NotReady);
        lemma_completed_after_round(slots, found_at, k, r as nat, m);
    }
}

/// Once the outcomes have been handed out no request is left: no request
/// is pending, so a round looks at none, and it hands out an empty list.
pub proof fn lemma_after_completion_yields_empty<T, E>(idxs: Seq<usize>, found: Seq<PollOutcome<T, E>>)
    requires
        is_pending_list(Seq::<Option<Result<T, E>>>::empty(), idxs),
    ensures
        idxs.len() == 0,
        all_completed(after_round(Seq::<Option<Result<T, E>>>::empty(), idxs, found)),
        outcomes(after_round(Seq::<Option<Result<T, E>>>::empty(), idxs, found)).len() == 0,
{
    if idxs.len() > 0 {
        assert(idxs[0] < 0);
    }
}

/// Round `q` is the first in which the look at request `k` finds a value
/// or an error.
pub open spec fn first_found_in<T, E>(found_at: spec_fn(int, int) -> PollOutcome<T, E>, k: int, q: int) -> bool {
    &&& !(found_at(q, k) is NotReady)
    &&& forall|e: int| 0 <= e < q ==> #[trigger] found_at(e, k) is NotReady
}

/// No look at request `k` in the first `r` rounds finds anything.
pub open spec fn still_running<T, E>(found_at: spec_fn(int, int) -> PollOutcome<T, E>, k: int, r: nat) -> bool {
    forall|q: int| 0 <= q < r ==> #[trigger] found_at(q, k) is NotReady
}

/// Over several rounds, each request keeps the first value or error found
/// for it, whatever later looks would find, and stays pending as long as
/// nothing has been found; a request that had completed before keeps its
/// outcome. With `complete_round` handing out the slots in the order of the
/// list, the outcomes follow the list, not the order of completion.
pub proof fn lemma_first_outcome_kept<T, E>(
    slots: Seq<Option<Result<T, E>>>,
    found_at: spec_fn(int, int) -> PollOutcome<T, E>,
    k: int,
    r: nat,
)
    requires
        0 <= k < slots.len(),
    ensures
        slots[k] is Some ==> after_rounds(slots, found_at, r)[k] == slots[k],
        slots[k] is None && still_running(found_at, k, r) ==> after_rounds(slots, found_at, r)[k] is None,
        slots[k] is None ==> forall|q: int|
            0 <= q < r && #[trigger] first_found_in(found_at, k, q) ==> after_rounds(slots, found_at, r)[k]
                == settle(None, found_at(q, k)),
    decreases r,
{
    if r > 0 {
        let prev = after_rounds(slots, found_at, (r - 1) as nat);
        lemma_rounds_keep_length(slots, found_at, (r - 1) as nat);
        lemma_first_outcome_kept(slots, found_at, k, (r - 1) as nat);
        let now = after_rounds(slots, found_at, r);
        assert(now[k] == settle(prev[k], found_at(r - 1, k)));
        if slots[k] is None {
            if still_running(found_at, k, r) {
                assert(still_running(found_at, k, (r - 1) as nat));
                assert(found_at(r - 1, k) is NotReady);
            }
            assert forall|q: int| 0 <= q < r && #[trigger] first_found_in(found_at, k, q) implies now[k] == settle(
                None,
                found_at(q, k),
            ) by {
                if q < r - 1 {
                } else {
                    assert(still_running(found_at, k, (r - 1) as nat));
                }
            }
        }
    }
}

} // verus!
