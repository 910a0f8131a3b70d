//! Which phase each context is in.

use crate::context_id::ContextId;
use crate::dash::{id_slot, id_slots, insert_id_slot, new_id_slots};
use dashmap::DashMap;
use std::fmt::Debug;
use vstd::prelude::*;
use vstd::std_specs::cmp::PartialEqSpec;

verus! {

/// `a == b` may come out as `result`.
pub open spec fn eq_says<P: PartialEq>(a: P, b: P, result: bool) -> bool {
    call_ensures(P::eq, (&a, &b), result)
}

/// `a == b` cannot come out false.
pub open spec fn surely_equal<P: PartialEq>(a: P, b: P) -> bool {
    forall|result: bool| #[trigger] eq_says(a, b, result) ==> result
}

/// A context may advance from where it is expected to be: nothing is expected,
/// or the context is in the expected phase.
pub open spec fn may_advance<P: PartialEq>(
    phases: Map<u64, P>,
    id: u64,
    from: Option<P>,
) -> bool {
    from matches Some(expected) ==> phases.dom().contains(id) && surely_equal(
        phases[id],
        expected,
    )
}

/// A context may be set from one of the valid phases: it has no phase yet, or
/// is in one of them.
pub open spec fn may_set<P: PartialEq>(phases: Map<u64, P>, id: u64, valid_from: Seq<P>) -> bool {
    phases.dom().contains(id) ==> exists|i: int|
        0 <= i < valid_from.len() && #[trigger] surely_equal(valid_from[i], phases[id])
}

/// A context was put into phase `to`: a context that had a phase got a clone of
/// it, one that had none got `to` itself. The other contexts are as they were.
pub open spec fn is_set<P: Clone>(
    before: Map<u64, P>,
    after: Map<u64, P>,
    id: u64,
    to: P,
) -> bool {
    &&& after.dom().contains(id)
    &&& after == before.insert(id, after[id])
    &&& if before.dom().contains(id) {
        cloned(to, after[id])
    } else {
        after[id] == to
    }
}

/// Tracks the phase of each context.
pub trait PhaseTracker<P>: Send + Sync where P: PartialEq + Debug + Clone + Send + Sync {
    /// The phase of each context that has one, by the context's number.
    spec fn phases(&self) -> Map<u64, P>;

    /// The tracker's own bookkeeping is in order.
    spec fn wf(&self) -> bool;

    /// Move a context to phase `to`. With `from`, the context has to be in
    /// that phase; without, it may be in any phase or in none.
    fn advance(&mut self, ctx: &ContextId, from: Option<P>, to: P)
        requires
            old(self).wf(),
            may_advance(old(self).phases(), ctx.spec_id(), from),
        ensures
            final(self).wf(),
            is_set(old(self).phases(), final(self).phases(), ctx.spec_id(), to),
    ;

    /// Move a context to phase `to`. If the context has a phase, that phase
    /// has to be one of `valid_from`.
    fn expect_any_and_set(&mut self, ctx: &ContextId, valid_from: &[P], to: P)
        requires
            old(self).wf(),
            may_set(old(self).phases(), ctx.spec_id(), valid_from@),
        ensures
            final(self).wf(),
            is_set(old(self).phases(), final(self).phases(), ctx.spec_id(), to),
    ;

    /// The phase of a context.
    fn get_phase(&self, ctx: &ContextId) -> (r: Option<P>)
        requires
            self.wf(),
        ensures
            match r {
                Some(phase) => self.phases().dom().contains(ctx.spec_id()) && cloned(
                    self.phases()[ctx.spec_id()],
                    phase,
                ),
                None => !self.phases().dom().contains(ctx.spec_id()),
            },
    ;
}

/// Why a context cannot change its phase.
#[derive(Clone, Copy, Debug, PartialEq, Eq, Structural)]
pub enum PhaseError {
    /// A phase was expected, and the context has none.
    Absent,
    /// The context is in another phase than was expected.
    Unexpected,
}

/// Tracks phases in a map.
pub struct DefaultPhaseTracker<P> {
    /// The place of each context's phase in `phases`.
    slots: DashMap<u64, usize>,
    phases: Vec<P>,
}

impl<P> DefaultPhaseTracker<P> {
    /// The phase of each context that has one.
    pub closed spec fn table(self) -> Map<u64, P> {
        Map::new(
            |id: u64| id_slots(self.slots).dom().contains(id),
            |id: u64| self.phases@[id_slots(self.slots)[id] as int],
        )
    }

    /// Each context has a place of its own.
    pub closed spec fn in_order(self) -> bool {
        let slots = id_slots(self.slots);
        &&& forall|id: u64| #[trigger]
            slots.dom().contains(id) ==> slots[id] < self.phases@.len()
        &&& forall|a: u64, b: u64| #[trigger]
            slots.dom().contains(a) && #[trigger] slots.dom().contains(b) && slots[a] == slots[b]
                ==> a == b
    }

    /// A tracker that knows no context.
    pub fn new() -> (r: DefaultPhaseTracker<P>)
        ensures
            r.in_order(),
            r.table() == Map::<u64, P>::empty(),
    {
        DefaultPhaseTracker { slots: new_id_slots(), phases: Vec::new() }
    }

    /// Put a context into a phase as it is.
    fn set(&mut self, id: u64, slot: Option<usize>, to: P)
        requires
            old(self).in_order(),
            match slot {
                Some(slot) => id_slots(old(self).slots).dom().contains(id) && slot == id_slots(
                    old(self).slots,
                )[id],
                None => !id_slots(old(self).slots).dom().contains(id),
            },
        ensures
            final(self).in_order(),
            final(self).table() == old(self).table().insert(id, to),
    {
        match slot {
            Some(slot) => {
                self.phases[slot] = to;
            },
            None => {
                let slot = self.phases.len();
                insert_id_slot(&mut self.slots, id, slot);
                self.phases.push(to);
            },
        }
        assert(self.table() == old(self).table().insert(id, to));
    }
}

impl<P> DefaultPhaseTracker<P> where P: PartialEq + Clone {
    /// Put a context into a phase: a clone of `to` where it had one already.
    fn put(&mut self, id: u64, slot: Option<usize>, to: P)
        requires
            old(self).in_order(),
            match slot {
                Some(slot) => id_slots(old(self).slots).dom().contains(id) && slot == id_slots(
                    old(self).slots,
                )[id],
                None => !id_slots(old(self).slots).dom().contains(id),
            },
        ensures
            final(self).in_order(),
            is_set(old(self).table(), final(self).table(), id, to),
    {
        match slot {
            Some(_) => self.set(id, slot, to.clone()),
            None => self.set(id, slot, to),
        }
    }

    /// [`PhaseTracker::advance`] for a transition that may not be allowed. One
    /// that is not leaves everything as it was.
    pub fn try_advance(&mut self, ctx: &ContextId, from: Option<P>, to: P) -> (r: Result<
        (),
        PhaseError,
    >)
        requires
            old(self).in_order(),
        ensures
            final(self).in_order(),
            r is Ok ==> is_set(old(self).table(), final(self).table(), ctx.spec_id(), to),
            r is Err ==> *final(self) == *old(self),
            match from {
                None => r is Ok,
                Some(expected) => if old(self).table().dom().contains(ctx.spec_id()) {
                    ||| r is Ok && eq_says(old(self).table()[ctx.spec_id()], expected, true)
                    ||| r == Err::<(), PhaseError>(PhaseError::Unexpected) && eq_says(
                        old(self).table()[ctx.spec_id()],
                        expected,
                        false,
                    )
                } else {
                    r == Err::<(), PhaseError>(PhaseError::Absent)
                },
            },
    {
        let id = ctx.id();
        let slot = id_slot(&self.slots, id);
        if let Some(expected) = &from {
            match slot {
                Some(slot) => {
                    if !self.phases[slot].eq(expected) {
                        return Err(PhaseError::Unexpected);
                    }
                },
                None => {
                    return Err(PhaseError::Absent);
                },
            }
        }
        self.put(id, slot, to);
        Ok(())
    }

    /// [`PhaseTracker::expect_any_and_set`] for a transition that may not be
    /// allowed. One that is not leaves everything as it was.
    pub fn try_expect_any_and_set(&mut self, ctx: &ContextId, valid_from: &[P], to: P) -> (r:
        Result<(), PhaseError>)
        requires
            old(self).in_order(),
        ensures
            final(self).in_order(),
            r is Ok ==> is_set(old(self).table(), final(self).table(), ctx.spec_id(), to),
            r is Err ==> *final(self) == *old(self),
            if old(self).table().dom().contains(ctx.spec_id()) {
                ||| r is Ok && exists|i: int|
                    0 <= i < valid_from@.len() && #[trigger] eq_says(
                        valid_from@[i],
                        old(self).table()[ctx.spec_id()],
                        true,
                    )
                ||| r == Err::<(), PhaseError>(PhaseError::Unexpected) && forall|i: int|
                    0 <= i < valid_from@.len() ==> #[trigger] eq_says(
                        valid_from@[i],
                        old(self).table()[ctx.spec_id()],
                        false,
                    )
            } else {
                r is Ok
            },
    {
        let id = ctx.id();
        let slot = id_slot(&self.slots, id);
        if let Some(place) = slot {
            let mut i: usize = 0;
            let mut found = false;
            while i < valid_from.len() && !found
                invariant
                    *self == *old(self),
                    place < self.phases@.len(),
                    i <= valid_from@.len(),
                    forall|k: int|
                        0 <= k < i ==> #[trigger] eq_says(
                            valid_from@[k],
                            self.phases@[place as int],
                            false,
                        ),
                    found ==> i < valid_from@.len() && eq_says(
                        valid_from@[i as int],
                        self.phases@[place as int],
                        true,
                    ),
                decreases valid_from.len() - i, if found { 0int } else { 1int },
            {
                if valid_from[i].eq(&self.phases[place]) {
                    found = true;
                } else {
                    i = i + 1;
                }
            }
            if !found {
                return Err(PhaseError::Unexpected);
            }
            assert(eq_says(valid_from@[i as int], old(self).table()[id], true));
        }
        self.put(id, slot, to);
        Ok(())
    }
}

impl<P> PhaseTracker<P> for DefaultPhaseTracker<P> where
    P: PartialEq + Debug + Clone + Send + Sync,
 {
    open spec fn phases(&self) -> Map<u64, P> {
        self.table()
    }

    open spec fn wf(&self) -> bool {
        self.in_order()
    }

    fn advance(&mut self, ctx: &ContextId, from: Option<P>, to: P) {
        let _done = self.try_advance(ctx, from, to);
    }

    fn expect_any_and_set(&mut self, ctx: &ContextId, valid_from: &[P], to: P) {
        let _done = self.try_expect_any_and_set(ctx, valid_from, to);
        proof {
            if _done is Err {
                let phase = old(self).phases()[ctx.spec_id()];
                let i = choose|i: int|
                    0 <= i < valid_from@.len() && #[trigger] surely_equal(valid_from@[i], phase);
                assert(eq_says(valid_from@[i], phase, false));
            }
        }
    }

    fn get_phase(&self, ctx: &ContextId) -> (r: Option<P>) {
        match id_slot(&self.slots, ctx.id()) {
            Some(slot) => Some(self.phases[slot].clone()),
            None => None,
        }
    }
}

impl<P> Default for DefaultPhaseTracker<P> where P: PartialEq + Debug + Clone + Send + Sync {
    fn default() -> (r: DefaultPhaseTracker<P>)
        ensures
            r.in_order(),
            r.table() == Map::<u64, P>::empty(),
    {
        DefaultPhaseTracker::new()
    }
}

/// What was set is read back, itself or as its clone, and no other context is
/// touched.
pub proof fn lemma_phases_are_independent<P: Clone>(
    before: Map<u64, P>,
    after: Map<u64, P>,
    id: u64,
    to: P,
    other: u64,
)
    requires
        is_set(before, after, id, to),
        other != id,
    ensures
        after.dom().contains(id),
        after[id] == to || cloned(to, after[id]),
        after.dom().contains(other) == before.dom().contains(other),
        before.dom().contains(other) ==> after[other] == before[other],
{
}

/// Transitions chain: a context that was moved to a phase may advance from
/// that phase, and may be set from any list that holds it. (A phase has to be equal
/// to its clones.)
pub proof fn lemma_transitions_chain<P: PartialEq + Clone>(
    before: Map<u64, P>,
    after: Map<u64, P>,
    id: u64,
    to: P,
    valid_from: Seq<P>,
    i: int,
)
    requires
        is_set(before, after, id, to),
        surely_equal(to, to),
        forall|copy: P| #[trigger]
            cloned(to, copy) ==> surely_equal(copy, to) && surely_equal(to, copy),
        0 <= i < valid_from.len(),
        valid_from[i] == to,
    ensures
        may_advance(after, id, Some(to)),
        may_set(after, id, valid_from),
{
    assert(surely_equal(valid_from[i], after[id]));
}

/// A context that has no phase may advance from nothing and may be set from
/// any list, but may not advance from a phase.
pub proof fn lemma_absent_context<P: PartialEq>(
    phases: Map<u64, P>,
    id: u64,
    from: P,
    valid_from: Seq<P>,
)
    requires
        !phases.dom().contains(id),
    ensures
        may_advance(phases, id, None),
        may_set(phases, id, valid_from),
        !may_advance(phases, id, Some(from)),
{
}

/// What was asked of two phases is what their own `==` may answer, and where their `==`
/// follows its specification it is the one answer that this gives.
pub proof fn lemma_phases_are_told_apart_by_their_own_eq<P: PartialEq>(
    a: P,
    b: P,
    result: bool,
)
    ensures
        eq_says(a, b, result) <==> call_ensures(P::eq, (&a, &b), result),
        surely_equal(a, b) <==> !call_ensures(P::eq, (&a, &b), false),
        P::obeys_eq_spec() && eq_says(a, b, result) ==> result == a.eq_spec(&b),
{
    assert(eq_says(a, b, false) ==> !surely_equal(a, b));
    if eq_says(a, b, result) && P::obeys_eq_spec() {
        assert(call_ensures(P::eq, (&a, &b), result));
    }
}

/// When a context may change its phase, case by case. With an expected phase it has to
/// be in a phase, one that is sure to equal the expected one; without, it always may.
/// With a list of phases it has to be in one of the list, or in none at all.
pub proof fn lemma_transitions_case_by_case<P: PartialEq>(
    phases: Map<u64, P>,
    id: u64,
    expected: P,
    valid_from: Seq<P>,
)
    ensures
        may_advance(phases, id, None),
        may_advance(phases, id, Some(expected)) <==> phases.dom().contains(id) && !call_ensures(
            P::eq,
            (&phases[id], &expected),
            false,
        ),
        may_set(phases, id, valid_from) <==> !phases.dom().contains(id) || exists|i: int|
            0 <= i < valid_from.len() && !call_ensures(
                P::eq,
                (&#[trigger] valid_from[i], &phases[id]),
                false,
            ),
{
    lemma_phases_are_told_apart_by_their_own_eq(phases[id], expected, false);
    assert forall|i: int| 0 <= i < valid_from.len() implies surely_equal(
        #[trigger] valid_from[i],
        phases[id],
    ) == !call_ensures(P::eq, (&valid_from[i], &phases[id]), false) by {
        lemma_phases_are_told_apart_by_their_own_eq(valid_from[i], phases[id], false);
    }
    if phases.dom().contains(id) && may_set(phases, id, valid_from) {
        let i = choose|i: int|
            0 <= i < valid_from.len() && #[trigger] surely_equal(valid_from[i], phases[id]);
        assert(!call_ensures(P::eq, (&valid_from[i], &phases[id]), false));
    }
}

/// What setting a phase leaves: a context that had a phase has a clone of the new one,
/// one that had none has the new one itself, and no context is lost or gained but this.
pub proof fn lemma_setting_a_phase_case_by_case<P: Clone>(
    before: Map<u64, P>,
    after: Map<u64, P>,
    id: u64,
    to: P,
)
    requires
        is_set(before, after, id, to),
    ensures
        before.dom().contains(id) ==> call_ensures(P::clone, (&to,), after[id]) || after[id] == to,
        !before.dom().contains(id) ==> after[id] == to,
        after.dom() == before.dom().insert(id),
        after.remove(id) == before.remove(id),
{
    assert(after.remove(id) == before.remove(id));
}

} // verus!
