//! The state of a pair under its lock.
//!
//! Whoever works on a pair does so in a [`Section`], which holds the pair's
//! lock. Everything done there is in the [`Trace`] that goes with it.

pub use crate::sync::{Act, Deed, Gate, Keeper, OfStopper, OfWorker, Pen, Put, Spent, Trace, Turn};

use crate::handshake::{Change, ParkState, Side, Wake};
use crate::sync;
use std::sync::{Condvar, Mutex, MutexGuard};
use std::time::Duration;
use vstd::prelude::*;

verus! {

/// The state of a pair under its lock.
pub struct Monitor {
    /// Held by a requester from its request to the end of its guard, so that
    /// requests come one after the other. The worker never takes it.
    request_lock: Mutex<()>,
    state: Mutex<ParkState>,
    /// The side that stops the worker waits here.
    park_cv: Condvar,
    /// The worker waits here.
    resume_cv: Condvar,
    /// Tells this pair from the others of its family.
    place: Ghost<int>,
}

impl Monitor {
    /// The lock of the requesters' queue.
    pub closed spec fn queue_lock(self) -> Mutex<()> {
        self.request_lock
    }

    /// The lock that the pair's state is under.
    pub closed spec fn lock(self) -> Mutex<ParkState> {
        self.state
    }

    /// Where one side waits and is woken up.
    pub closed spec fn bell(self, side: Side) -> Condvar {
        match side {
            Side::Stopper => self.park_cv,
            Side::Worker => self.resume_cv,
        }
    }

    /// The state that the pair started out with.
    pub closed spec fn first_state(self) -> ParkState {
        sync::made_with(self.state)
    }

    /// Where the pair stands in its family. Pairs that stand in different places
    /// are different pairs.
    pub closed spec fn place(self) -> int {
        self.place@
    }

    /// A fresh pair: no request, worker running.
    pub(crate) fn new(place: Ghost<int>) -> (r: Monitor)
        ensures
            r.first_state() == ParkState::initial(),
            r.place() == place@,
    {
        Monitor {
            request_lock: Mutex::new(()),
            state: sync::state_lock(ParkState::new()),
            park_cv: Condvar::new(),
            resume_cv: Condvar::new(),
            place,
        }
    }

    /// Where one side waits and is woken up.
    fn cv(&self, side: Side) -> (r: &Condvar)
        ensures
            *r == self.bell(side),
    {
        match side {
            Side::Stopper => &self.park_cv,
            Side::Worker => &self.resume_cv,
        }
    }

    /// Wait until no other requester is at work, and keep the others waiting
    /// until the guard is given up.
    pub(crate) fn queue(&self, trace: &mut Trace) -> (guard: MutexGuard<'_, ()>)
        ensures
            sync::queue_of(guard) == self.queue_lock(),
            final(trace)@ == old(trace)@.push(Deed { pair: *self, act: Act::Queued }),
    {
        sync::lock_queue(&self.request_lock, self, trace)
    }

    /// Let the next requester go to work.
    pub(crate) fn unqueue(&self, guard: MutexGuard<'_, ()>, trace: &mut Trace)
        requires
            sync::queue_of(guard) == self.queue_lock(),
        ensures
            final(trace)@ == old(trace)@.push(Deed { pair: *self, act: Act::Unqueued }),
    {
        sync::unlock_queue(guard, self, trace);
    }

    /// Take the pair's lock.
    pub(crate) fn enter(&self, trace: &mut Trace) -> (r: Section<'_>)
        ensures
            r.wf(),
            r.pair() == *self,
            final(trace)@ == old(trace)@.push(Deed { pair: *self, act: Act::Entered(r.state()) }),
    {
        let guard = sync::lock_state(&self.state, self, trace);
        Section { monitor: self, guard }
    }
}

/// Work on a pair under its lock.
pub struct Section<'a> {
    monitor: &'a Monitor,
    guard: MutexGuard<'a, ParkState>,
}

impl<'a> Section<'a> {
    /// The pair that is worked on.
    pub closed spec fn pair(self) -> Monitor {
        *self.monitor
    }

    /// The state under the lock.
    pub closed spec fn state(self) -> ParkState {
        sync::held(self.guard)
    }

    /// The lock is the pair's.
    pub closed spec fn wf(self) -> bool {
        sync::lock_of(self.guard) == self.monitor.lock()
    }

    /// The state under the lock.
    pub(crate) fn read(&self) -> (r: ParkState)
        ensures
            r == self.state(),
    {
        sync::read(&self.guard)
    }

    /// Change the state under the lock, with the pen of the side that makes this
    /// change.
    pub(crate) fn change<S: Keeper>(
        &mut self,
        change: Change,
        pen: &mut Pen<S>,
        trace: &mut Trace,
    )
        requires
            old(self).wf(),
            S::side() == change.spec_side(),
            old(pen).pair() == old(self).pair(),
        ensures
            final(pen).pair() == old(pen).pair(),
            final(pen).arc() == old(pen).arc(),
            final(pen).puts() == old(pen).puts().push(
                Put { over: old(self).state(), left: final(self).state() },
            ),
            final(self).wf(),
            final(self).pair() == old(self).pair(),
            final(self).state() == change.applied_to(old(self).state()),
            final(trace)@ == old(trace)@.push(
                Deed { pair: old(self).pair(), act: Act::Wrote(final(self).state()) },
            ),
    {
        let mut state = sync::read(&self.guard);
        change.apply(&mut state);
        sync::write(&mut self.guard, state, pen, trace);
    }

    /// Wake up the threads of one side that wait.
    pub(crate) fn wake(&self, side: Side, trace: &mut Trace)
        ensures
            final(trace)@ == old(trace)@.push(Deed { pair: self.pair(), act: Act::Woke(side) }),
    {
        sync::notify(self.monitor.cv(side), self.monitor, side, trace);
    }

    /// Give the lock back.
    pub(crate) fn leave(self, trace: &mut Trace)
        requires
            self.wf(),
        ensures
            final(trace)@ == old(trace)@.push(Deed { pair: self.pair(), act: Act::Left }),
    {
        sync::unlock_state(self.guard, self.monitor, trace);
    }

    /// Give the lock back and wait until the state is one that `wake` waits for,
    /// or the limit is over; then go on under the lock. A state that is waited
    /// for already is left as it is.
    pub(crate) fn wait(self, wake: Wake, limit: Option<Duration>, trace: &mut Trace) -> (r: Section<
        'a,
    >)
        requires
            self.wf(),
        ensures
            r.wf(),
            r.pair() == self.pair(),
            limit is None ==> wake.met(r.state()),
            wake.met(self.state()) ==> r.state() == self.state(),
            final(trace)@ == old(trace)@.push(
                Deed { pair: self.pair(), act: Act::Waited(wake, limit, r.state()) },
            ),
    {
        let monitor = self.monitor;
        let cv = monitor.cv(wake.side());
        let guard = match limit {
            None => sync::wait_until(cv, self.guard, wake, monitor, trace),
            Some(limit) => {
                let (guard, _elapsed) = sync::wait_until_or_elapsed(
                    cv,
                    self.guard,
                    wake,
                    limit,
                    monitor,
                    trace,
                );
                guard
            },
        };
        Section { monitor, guard }
    }
}

} // verus!
