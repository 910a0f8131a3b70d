//! The stop handshake of one checkpoint pair, as plain data.
//!
//! A pair has a stopping side (a requester, or the parent of a fanned-out
//! child) and a worker side (the handle). Everything the two sides tell each
//! other is in [`ParkState`]; every change either side makes to it is one of
//! the methods below, made in one critical section.

use vstd::prelude::*;

verus! {

/// Outcome of the stop request handshake.
#[derive(Clone, Copy, PartialEq, Eq, Structural)]
pub enum Handshake {
    /// The worker is parked and holds no references.
    Parked,
    /// The worker is gone and will never park again; access is free.
    Closed,
    /// The wait ended before the worker parked.
    TimedOut,
}

impl Handshake {
    /// Whether this outcome lets the stopping side read the node.
    pub open spec fn spec_grants(self) -> bool {
        self == Handshake::Parked || self == Handshake::Closed
    }

    /// Whether this outcome lets the stopping side read the node: a parked
    /// worker and a finished one both do.
    pub fn grants(&self) -> (r: bool)
        ensures
            r == self.spec_grants(),
    {
        match self {
            Handshake::Parked | Handshake::Closed => true,
            Handshake::TimedOut => false,
        }
    }
}

/// What the two sides of a pair know of each other.
#[derive(Clone, Copy, PartialEq, Eq, Structural)]
pub struct ParkState {
    /// A stop has been requested and not yet released.
    pub pending_request: bool,
    /// The worker is gone: it never parks again.
    pub closed: bool,
    /// The worker is parked.
    pub parked: bool,
}

impl ParkState {
    /// A fresh pair: no request, worker running.
    pub open spec fn initial() -> ParkState {
        ParkState { pending_request: false, closed: false, parked: false }
    }

    /// The stopping side has its answer: the worker is parked or gone.
    pub open spec fn spec_is_settled(self) -> bool {
        self.parked || self.closed
    }

    /// The release is through: the worker runs again, or is gone.
    pub open spec fn spec_is_resumed(self) -> bool {
        !self.parked || self.closed
    }

    /// The state after a stop request.
    pub open spec fn after_request(self) -> ParkState {
        ParkState { pending_request: true, ..self }
    }

    /// The answer that the stopping side reads off a state once its wait is
    /// over. A parked worker wins over a closed one; with neither, the wait
    /// timed out.
    pub open spec fn outcome(self) -> Handshake {
        if self.parked {
            Handshake::Parked
        } else if self.closed {
            Handshake::Closed
        } else {
            Handshake::TimedOut
        }
    }

    /// The state after the stopping side took its answer: the request stays
    /// up exactly when the worker is parked on it.
    pub open spec fn after_answer(self) -> ParkState {
        ParkState { pending_request: self.pending_request && self.parked, ..self }
    }

    /// The state after the stop request was taken back.
    pub open spec fn after_release(self) -> ParkState {
        ParkState { pending_request: false, ..self }
    }

    /// The state after the worker parked.
    pub open spec fn after_park(self) -> ParkState {
        ParkState { parked: true, ..self }
    }

    /// The state after the worker left its parking place.
    pub open spec fn after_unpark(self) -> ParkState {
        ParkState { parked: false, ..self }
    }

    /// The state after the worker closed its side.
    pub open spec fn after_close(self) -> ParkState {
        ParkState { closed: true, ..self }
    }

    /// A fresh pair: no request, worker running.
    pub fn new() -> (r: ParkState)
        ensures
            r == ParkState::initial(),
    {
        ParkState { pending_request: false, closed: false, parked: false }
    }

    /// Whether the stopping side has its answer.
    pub fn is_settled(&self) -> (r: bool)
        ensures
            r == self.spec_is_settled(),
    {
        self.parked || self.closed
    }

    /// Whether a release is through.
    pub fn is_resumed(&self) -> (r: bool)
        ensures
            r == self.spec_is_resumed(),
    {
        !self.parked || self.closed
    }

    /// Raise the stop request.
    pub fn request(&mut self)
        ensures
            *final(self) == old(self).after_request(),
    {
        self.pending_request = true;
    }

    /// Take the answer to a stop request after the wait for it has ended.
    ///
    /// A request that a worker is parked on stays up until it is released.
    /// Otherwise it is taken back here, so that a worker on its way to its
    /// parking place passes straight through.
    pub fn answer(&mut self) -> (r: Handshake)
        ensures
            r == old(self).outcome(),
            *final(self) == old(self).after_answer(),
    {
        if self.parked {
            return Handshake::Parked;
        }
        self.pending_request = false;
        if self.closed {
            return Handshake::Closed;
        }
        Handshake::TimedOut
    }

    /// Take the stop request back.
    pub fn release(&mut self)
        ensures
            *final(self) == old(self).after_release(),
    {
        self.pending_request = false;
    }

    /// The worker has reached its parking place.
    pub fn park(&mut self)
        ensures
            *final(self) == old(self).after_park(),
    {
        self.parked = true;
    }

    /// The worker leaves its parking place.
    pub fn unpark(&mut self)
        ensures
            *final(self) == old(self).after_unpark(),
    {
        self.parked = false;
    }

    /// The worker is gone for good.
    pub fn close(&mut self)
        ensures
            *final(self) == old(self).after_close(),
    {
        self.closed = true;
    }
}

/// A change that one side of a pair makes to their state.
#[derive(Clone, Copy, PartialEq, Eq, Structural)]
pub enum Change {
    /// The stopping side raises a request.
    Request,
    /// The stopping side takes the answer to its request.
    Answer,
    /// The stopping side takes its request back.
    Release,
    /// The worker reaches its parking place.
    Park,
    /// The worker leaves its parking place.
    Unpark,
    /// The worker is gone for good.
    Close,
}

impl Side {
    /// What this side may make of the state of a pair. The side that stops the worker
    /// raises requests and takes them back; whether the worker is parked and whether
    /// it is gone is up to the worker.
    pub open spec fn may_change(self, before: ParkState, after: ParkState) -> bool {
        match self {
            Side::Stopper => after.parked == before.parked && after.closed == before.closed,
            Side::Worker => after.pending_request == before.pending_request,
        }
    }
}

impl Change {
    /// The side that makes this change.
    pub open spec fn spec_side(self) -> Side {
        match self {
            Change::Request | Change::Answer | Change::Release => Side::Stopper,
            Change::Park | Change::Unpark | Change::Close => Side::Worker,
        }
    }

    /// The state after this change.
    pub open spec fn applied_to(self, state: ParkState) -> ParkState {
        match self {
            Change::Request => state.after_request(),
            Change::Answer => state.after_answer(),
            Change::Release => state.after_release(),
            Change::Park => state.after_park(),
            Change::Unpark => state.after_unpark(),
            Change::Close => state.after_close(),
        }
    }

    /// Make this change.
    pub fn apply(&self, state: &mut ParkState)
        ensures
            *final(state) == self.applied_to(*old(state)),
    {
        match self {
            Change::Request => state.request(),
            Change::Answer => {
                let _outcome = state.answer();
            },
            Change::Release => state.release(),
            Change::Park => state.park(),
            Change::Unpark => state.unpark(),
            Change::Close => state.close(),
        }
    }
}

/// What a thread may wait for on a pair.
#[derive(Clone, Copy, PartialEq, Eq, Structural)]
pub enum Wake {
    /// The worker has parked or closed.
    Settled,
    /// The stop request has been taken back.
    Released,
    /// The worker runs again or has closed.
    Resumed,
}

/// The two sides of a pair.
#[derive(Clone, Copy, PartialEq, Eq, Structural)]
pub enum Side {
    /// The side that stops the worker.
    Stopper,
    /// The worker.
    Worker,
}

impl Wake {
    /// The side that waits for this.
    pub open spec fn spec_side(self) -> Side {
        match self {
            Wake::Settled | Wake::Resumed => Side::Stopper,
            Wake::Released => Side::Worker,
        }
    }

    /// The side that waits for this.
    pub fn side(&self) -> (r: Side)
        ensures
            r == self.spec_side(),
    {
        match self {
            Wake::Settled | Wake::Resumed => Side::Stopper,
            Wake::Released => Side::Worker,
        }
    }

    /// Whether a thread that waits for this may go on in the given state.
    pub open spec fn met(self, state: ParkState) -> bool {
        match self {
            Wake::Settled => state.spec_is_settled(),
            Wake::Released => !state.pending_request,
            Wake::Resumed => state.spec_is_resumed(),
        }
    }

    /// Whether a thread that waits for this has to keep waiting.
    pub fn blocks(&self, state: &ParkState) -> (r: bool)
        ensures
            r == !self.met(*state),
    {
        match self {
            Wake::Settled => !state.is_settled(),
            Wake::Released => state.pending_request,
            Wake::Resumed => !state.is_resumed(),
        }
    }
}

impl Wake {
    /// Somebody who waits for this while the state is `before` may go on once it
    /// is `after`. (A worker waits for a release only while it is parked.)
    pub open spec fn ends(self, before: ParkState, after: ParkState) -> bool {
        &&& !self.met(before)
        &&& self.met(after)
        &&& self == Wake::Released ==> before.parked
    }
}

/// Only a release ends a wait of the worker; only a park, its end and a close end
/// a wait of the side that stops it.
pub proof fn lemma_waits_are_ended_by_the_other_side(
    change: Change,
    state: ParkState,
    wake: Wake,
)
    requires
        wake.ends(state, change.applied_to(state)),
    ensures
        match wake.spec_side() {
            Side::Worker => change == Change::Release,
            Side::Stopper => change == Change::Park || change == Change::Unpark || change
                == Change::Close,
        },
{
}

/// A stop that is answered by a park and released leaves the pair as it was.
pub proof fn lemma_stop_and_release_undo_each_other(state: ParkState)
    requires
        state == ParkState::initial(),
    ensures
        state.after_request().after_park().outcome() == Handshake::Parked,
        state.after_request().after_park().after_answer().after_release().after_unpark() == state,
{
}

/// A request that is answered by no park is down again.
pub proof fn lemma_unanswered_request_is_down(state: ParkState)
    requires
        !state.parked,
    ensures
        !state.after_request().after_answer().pending_request,
        !state.after_request().outcome().spec_grants() <==> !state.closed,
{
}

/// What each change does, flag by flag. A request is raised and taken back by the side
/// that stops the worker, and the answer to it leaves it up only over a parked worker;
/// the other two flags are left alone. The worker parks, leaves its parking place and
/// closes, and leaves the request alone. Nothing takes a close back.
pub proof fn lemma_changes_flag_by_flag(change: Change, state: ParkState)
    ensures
        change.applied_to(state).pending_request == match change {
            Change::Request => true,
            Change::Answer => state.pending_request && state.parked,
            Change::Release => false,
            Change::Park | Change::Unpark | Change::Close => state.pending_request,
        },
        change.applied_to(state).parked == match change {
            Change::Park => true,
            Change::Unpark => false,
            Change::Request | Change::Answer | Change::Release | Change::Close => state.parked,
        },
        change.applied_to(state).closed == (state.closed || change == Change::Close),
        change.spec_side().may_change(state, change.applied_to(state)),
{
}

/// A fresh pair has no flag up.
pub proof fn lemma_fresh_pair_has_no_flag_up()
    ensures
        !ParkState::initial().pending_request,
        !ParkState::initial().parked,
        !ParkState::initial().closed,
{
}

/// What the side that stops a worker is told: that it is parked if it is, else that it
/// has closed if it has, else that the time is over. It is told one of the first two
/// exactly when it may read the node, and exactly then it has nothing left to wait for.
pub proof fn lemma_answers_flag_by_flag(state: ParkState)
    ensures
        state.outcome() == Handshake::Parked <==> state.parked,
        state.outcome() == Handshake::Closed <==> state.closed && !state.parked,
        state.outcome() == Handshake::TimedOut <==> !state.closed && !state.parked,
        state.outcome().spec_grants() <==> state.parked || state.closed,
        Wake::Settled.met(state) <==> state.parked || state.closed,
        Wake::Resumed.met(state) <==> !state.parked || state.closed,
        Wake::Released.met(state) <==> !state.pending_request,
        Wake::Settled.spec_side() == Side::Stopper,
        Wake::Resumed.spec_side() == Side::Stopper,
        Wake::Released.spec_side() == Side::Worker,
{
}

/// The two sides keep apart: the side that stops a worker leaves the flags that the
/// worker is parked and that it is gone as they are, and the worker leaves the request
/// as it is. No state but the same one can be left by either.
pub proof fn lemma_sides_keep_apart(before: ParkState, after: ParkState)
    ensures
        Side::Stopper.may_change(before, after) <==> after.parked == before.parked && after.closed
            == before.closed,
        Side::Worker.may_change(before, after) <==> after.pending_request == before.pending_request,
        Side::Stopper.may_change(before, after) && Side::Worker.may_change(before, after)
            ==> after == before,
{
}

} // verus!
