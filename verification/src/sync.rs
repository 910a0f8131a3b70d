//! The locks and condition variables of std that the checkpoint handshake
//! waits on, and a record of what is done with them.
//!
//! What a lock holds when it is taken is up to the other threads. From then on,
//! as long as its guard is there, it holds what was put under it through that
//! guard: [`held`] names it.
//!
//! Every function here that does something to a pair writes that down in the
//! [`Trace`] that it is given, and nothing else writes there: what is in a record
//! was done, and in that order. That a pair was only looked at or waited on with a
//! record that was thrown away, a record cannot tell.
//!
//! To change the state of a pair takes one of its two [`Pen`]s. They are made with
//! the pair, once, one for each side, and every change made with a pen is in the pen:
//! nobody changes a pair unseen, and a function that has no pen of a pair changes
//! nothing of it. The worker's pen cannot raise a request or take one back, and the
//! other one cannot park or close the worker. The requesters of a pair share one pen,
//! and whoever has the lock of their queue has it.

use crate::handshake::{ParkState, Side, Wake};
use crate::monitor::Monitor;
use std::sync::{Arc, Condvar, Mutex, MutexGuard};
use std::time::Duration;
use vstd::prelude::*;

verus! {

/// What was done with a pair.
pub enum Act {
    /// The place in the queue of the requesters was taken.
    Queued,
    /// The place in the queue was given up.
    Unqueued,
    /// The pair's lock was taken, and this was the state under it.
    Entered(ParkState),
    /// The pair's lock was given back.
    Left,
    /// This state was put under the lock.
    Wrote(ParkState),
    /// The threads of one side that wait were woken up.
    Woke(Side),
    /// The lock was given back for a wait, at most as long as the limit, and
    /// taken again with this state under it.
    Waited(Wake, Option<Duration>, ParkState),
}

/// Something that was done with some pair.
pub struct Deed {
    pub pair: Monitor,
    pub act: Act,
}

/// A record of deeds.
pub struct Trace {
    deeds: Ghost<Seq<Deed>>,
}

impl View for Trace {
    type V = Seq<Deed>;

    closed spec fn view(&self) -> Seq<Deed> {
        self.deeds@
    }
}

impl Trace {
    /// A record of nothing.
    pub(crate) fn new() -> (r: Trace)
        ensures
            r@ == Seq::<Deed>::empty(),
    {
        Trace { deeds: Ghost(Seq::empty()) }
    }
}

/// A change of the state under a lock.
pub struct Put {
    pub over: ParkState,
    pub left: ParkState,
}

/// Whose pen it is.
pub trait Keeper {
    /// The side that has the pen.
    spec fn side() -> Side;
}

/// The worker's.
pub struct OfWorker;

/// That of the side that stops the worker.
pub struct OfStopper;

impl Keeper for OfWorker {
    open spec fn side() -> Side {
        Side::Worker
    }
}

impl Keeper for OfStopper {
    open spec fn side() -> Side {
        Side::Stopper
    }
}

/// What it takes to change the state of a pair, for one of its two sides, with all
/// that was changed with it.
pub struct Pen<S> {
    pair: Arc<Monitor>,
    puts: Ghost<Seq<Put>>,
    #[allow(dead_code)]
    keeper: S,
}

impl<S> Pen<S> {
    /// The pair that this pen is for.
    pub closed spec fn pair(self) -> Monitor {
        *self.pair
    }

    /// The pair that this pen is for, as it is shared.
    pub closed spec fn arc(self) -> Arc<Monitor> {
        self.pair
    }

    /// Everything that was put under the pair's lock with this pen.
    pub closed spec fn puts(self) -> Seq<Put> {
        self.puts@
    }

    /// The pair that this pen is for.
    pub(crate) fn shared(&self) -> (r: Arc<Monitor>)
        ensures
            r == self.arc(),
            *r == self.pair(),
    {
        self.pair.clone()
    }

    /// Use the pen up.
    pub(crate) fn spend(self) -> (r: Spent)
        ensures
            r.pair() == self.pair(),
            r.puts() == self.puts(),
    {
        let ghost pair = self.pair();
        Spent { pair: Ghost(pair), puts: self.puts }
    }
}

/// The two pens of a fresh pair, the worker's and that of the side that stops it.
/// Nothing has been put with them.
pub(crate) fn both_pens(monitor: Monitor) -> (r: (Pen<OfWorker>, Pen<OfStopper>))
    ensures
        r.0.pair() == monitor,
        r.1.pair() == monitor,
        *r.1.arc() == monitor,
        r.0.puts() == Seq::<Put>::empty(),
        r.1.puts() == Seq::<Put>::empty(),
{
    let pair = Arc::new(monitor);
    let worker = Pen { pair: pair.clone(), puts: Ghost(Seq::empty()), keeper: OfWorker };
    let stopper = Pen { pair, puts: Ghost(Seq::empty()), keeper: OfStopper };
    (worker, stopper)
}

/// What is left of a pen that was used up: nothing more can be put with it.
pub struct Spent {
    #[allow(dead_code)]
    pair: Ghost<Monitor>,
    #[allow(dead_code)]
    puts: Ghost<Seq<Put>>,
}

impl Spent {
    /// The pair that the pen was for.
    pub closed spec fn pair(self) -> Monitor {
        self.pair@
    }

    /// Everything that was put under the pair's lock with the pen.
    pub closed spec fn puts(self) -> Seq<Put> {
        self.puts@
    }
}

/// Where the pen of the side that stops a worker lies when several requesters share
/// it: behind the lock of their queue. Each turn starts with a pen with which nothing was
/// put in that turn; what was put in other turns, by whichever requester, it does not
/// tell.
pub struct Gate {
    pair: Arc<Monitor>,
}

impl Gate {
    /// The pair that the pen behind this gate is for.
    pub closed spec fn pair(self) -> Monitor {
        *self.pair
    }

    /// The pair that the pen behind this gate is for.
    pub(crate) fn shared(&self) -> (r: &Monitor)
        ensures
            *r == self.pair(),
    {
        &*self.pair
    }

    /// Put a pen with which nothing was done behind a gate.
    pub(crate) fn new(pen: Pen<OfStopper>) -> (r: Gate)
        requires
            pen.puts() == Seq::<Put>::empty(),
        ensures
            r.pair() == pen.pair(),
    {
        Gate { pair: pen.pair }
    }

    /// Take the pen, for as long as the lock of the queue is held.
    pub(crate) fn turn<'a>(&'a self, guard: MutexGuard<'a, ()>) -> (r: Turn<'a>)
        requires
            queue_of(guard) == self.pair().queue_lock(),
        ensures
            r.pen().pair() == self.pair(),
            r.pen().puts() == Seq::<Put>::empty(),
            r.holds_queue(),
    {
        let pen = Pen { pair: self.pair.clone(), puts: Ghost(Seq::empty()), keeper: OfStopper };
        Turn { guard, pen }
    }
}

/// A requester's turn: the lock of the queue, and the pen that comes with it.
pub struct Turn<'a> {
    guard: MutexGuard<'a, ()>,
    pen: Pen<OfStopper>,
}

impl<'a> Turn<'a> {
    /// The pen.
    pub closed spec fn pen(self) -> Pen<OfStopper> {
        self.pen
    }

    /// The lock is that of the queue of the pen's pair.
    pub closed spec fn holds_queue(self) -> bool {
        queue_of(self.guard) == self.pen.pair().queue_lock()
    }

    /// Use the pen.
    pub(crate) fn pen_mut(&mut self) -> (r: &mut Pen<OfStopper>)
        ensures
            *r == old(self).pen(),
            final(self).pen() == *final(r),
            final(r).pair() == old(self).pen().pair() ==> final(self).holds_queue() == old(
                self,
            ).holds_queue(),
    {
        &mut self.pen
    }

    /// Give the lock of the queue back, and use the pen up.
    pub(crate) fn end(self, pair: &Monitor, trace: &mut Trace) -> (r: Spent)
        requires
            self.holds_queue(),
            *pair == self.pen().pair(),
        ensures
            r.pair() == self.pen().pair(),
            r.puts() == self.pen().puts(),
            final(trace)@ == old(trace)@.push(Deed { pair: *pair, act: Act::Unqueued }),
    {
        pair.unqueue(self.guard, trace);
        self.pen.spend()
    }
}

/// `std::sync::Mutex`, opaque.
#[verifier::external_type_specification]
#[verifier::external_body]
#[verifier::reject_recursive_types(T)]
pub struct ExMutex<T: ?Sized>(Mutex<T>);

/// `std::sync::MutexGuard`, opaque.
#[verifier::external_type_specification]
#[verifier::external_body]
#[verifier::reject_recursive_types(T)]
pub struct ExMutexGuard<'a, T: ?Sized + 'a>(MutexGuard<'a, T>);

/// `std::sync::Condvar`, opaque.
#[verifier::external_type_specification]
#[verifier::external_body]
pub struct ExCondvar(Condvar);

/// The state under the lock that a guard holds. No other thread can change it
/// while the guard is there.
pub uninterp spec fn held(guard: MutexGuard<'_, ParkState>) -> ParkState;

/// The lock that a guard holds.
pub uninterp spec fn lock_of(guard: MutexGuard<'_, ParkState>) -> Mutex<ParkState>;

/// The lock of a queue that a guard holds.
pub uninterp spec fn queue_of(guard: MutexGuard<'_, ()>) -> Mutex<()>;

/// The state that a lock was made with. It stays the same whatever is put under
/// the lock later.
pub uninterp spec fn made_with(lock: Mutex<ParkState>) -> ParkState;

/// `Mutex::new`. Nothing is claimed of the lock.
pub assume_specification<T>[ Mutex::<T>::new ](t: T) -> Mutex<T>
;

/// `Mutex::new` around a state: the lock is made with that state.
#[verifier::external_body]
pub(crate) fn state_lock(state: ParkState) -> (r: Mutex<ParkState>)
    ensures
        made_with(r) == state,
{
    Mutex::new(state)
}

/// `Condvar::new`. Nothing is claimed of it.
pub assume_specification[ Condvar::new ]() -> Condvar
;

/// `Mutex::lock` on the queue of a pair's requesters, with the poison mark of a
/// panicked holder ignored. It blocks until no other thread holds the lock, and
/// is written down.
#[allow(unused_variables)]
#[verifier::external_body]
pub(crate) fn lock_queue<'a>(mutex: &'a Mutex<()>, pair: &Monitor, trace: &mut Trace) -> (r:
    MutexGuard<'a, ()>)
    requires
        *mutex == pair.queue_lock(),
    ensures
        queue_of(r) == *mutex,
        final(trace)@ == old(trace)@.push(Deed { pair: *pair, act: Act::Queued }),
{
    mutex.lock().unwrap_or_else(|poisoned| poisoned.into_inner())
}

/// `Mutex::lock` on the state of a pair, with the poison mark of a panicked
/// holder ignored. It blocks until no other thread holds the lock. Which state is
/// found there is up to the other threads; it is written down.
#[allow(unused_variables)]
#[verifier::external_body]
pub(crate) fn lock_state<'a>(mutex: &'a Mutex<ParkState>, pair: &Monitor, trace: &mut Trace) -> (r:
    MutexGuard<'a, ParkState>)
    requires
        *mutex == pair.lock(),
    ensures
        lock_of(r) == *mutex,
        final(trace)@ == old(trace)@.push(Deed { pair: *pair, act: Act::Entered(held(r)) }),
{
    mutex.lock().unwrap_or_else(|poisoned| poisoned.into_inner())
}

/// `drop` of a `MutexGuard`: gives the lock of a pair's queue back. It is written
/// down.
#[allow(unused_variables)]
#[verifier::external_body]
pub(crate) fn unlock_queue(guard: MutexGuard<'_, ()>, pair: &Monitor, trace: &mut Trace)
    requires
        queue_of(guard) == pair.queue_lock(),
    ensures
        final(trace)@ == old(trace)@.push(Deed { pair: *pair, act: Act::Unqueued }),
{
    drop(guard)
}

/// `drop` of a `MutexGuard`: gives the lock of a pair's state back. It is written
/// down.
#[allow(unused_variables)]
#[verifier::external_body]
pub(crate) fn unlock_state(guard: MutexGuard<'_, ParkState>, pair: &Monitor, trace: &mut Trace)
    requires
        lock_of(guard) == pair.lock(),
    ensures
        final(trace)@ == old(trace)@.push(Deed { pair: *pair, act: Act::Left }),
{
    drop(guard)
}

/// `Deref` of a `MutexGuard`: a copy of the state under the lock.
#[verifier::external_body]
pub(crate) fn read(guard: &MutexGuard<'_, ParkState>) -> (r: ParkState)
    ensures
        r == held(*guard),
{
    **guard
}

/// `DerefMut` of a `MutexGuard`: puts a state under the lock that the guard
/// holds. It is written down, in the record and in the pen. The state is one that the
/// side whose pen it is may leave there.
#[allow(unused_variables)]
#[verifier::external_body]
pub(crate) fn write<S: Keeper>(
    guard: &mut MutexGuard<'_, ParkState>,
    state: ParkState,
    pen: &mut Pen<S>,
    trace: &mut Trace,
)
    requires
        lock_of(*old(guard)) == old(pen).pair().lock(),
        S::side().may_change(held(*old(guard)), state),
    ensures
        held(*final(guard)) == state,
        lock_of(*final(guard)) == lock_of(*old(guard)),
        final(pen).pair() == old(pen).pair(),
        final(pen).arc() == old(pen).arc(),
        final(pen).puts() == old(pen).puts().push(Put { over: held(*old(guard)), left: state }),
        final(trace)@ == old(trace)@.push(Deed { pair: old(pen).pair(), act: Act::Wrote(state) }),
{
    **guard = state;
}

/// `Condvar::notify_all`: wakes up the threads that wait on `cv`, which is where
/// one side of a pair waits. It is written down.
#[allow(unused_variables)]
#[verifier::external_body]
pub(crate) fn notify(cv: &Condvar, pair: &Monitor, side: Side, trace: &mut Trace)
    requires
        *cv == pair.bell(side),
    ensures
        final(trace)@ == old(trace)@.push(Deed { pair: *pair, act: Act::Woke(side) }),
{
    cv.notify_all()
}

/// `Condvar::wait_while`: gives the lock back and blocks until the state under it
/// is one that `wake` waits for. The condition is looked at first, under the
/// lock: a state that is waited for is left as it is. The wait is written down.
///
/// The poison mark is ignored here as it is by [`lock_state`]. It is never set: all
/// work under the lock of a pair is in [`crate::monitor::Section`], which sets and
/// reads flags, wakes and waits.
#[allow(unused_variables)]
#[verifier::external_body]
pub(crate) fn wait_until<'a>(
    cv: &Condvar,
    guard: MutexGuard<'a, ParkState>,
    wake: Wake,
    pair: &Monitor,
    trace: &mut Trace,
) -> (r: MutexGuard<'a, ParkState>)
    requires
        *cv == pair.bell(wake.spec_side()),
        lock_of(guard) == pair.lock(),
    ensures
        lock_of(r) == lock_of(guard),
        wake.met(held(r)),
        wake.met(held(guard)) ==> held(r) == held(guard),
        final(trace)@ == old(trace)@.push(
            Deed { pair: *pair, act: Act::Waited(wake, None, held(r)) },
        ),
{
    cv.wait_while(guard, |state| wake.blocks(state)).unwrap_or_else(
        |poisoned| poisoned.into_inner(),
    )
}

/// `Condvar::wait_timeout_while`: as [`wait_until`], but gives up after about
/// `limit`. The flag tells whether the time ran out without a state that `wake`
/// waits for.
#[allow(unused_variables)]
#[verifier::external_body]
pub(crate) fn wait_until_or_elapsed<'a>(
    cv: &Condvar,
    guard: MutexGuard<'a, ParkState>,
    wake: Wake,
    limit: Duration,
    pair: &Monitor,
    trace: &mut Trace,
) -> (r: (MutexGuard<'a, ParkState>, bool))
    requires
        *cv == pair.bell(wake.spec_side()),
        lock_of(guard) == pair.lock(),
    ensures
        lock_of(r.0) == lock_of(guard),
        r.1 == !wake.met(held(r.0)),
        wake.met(held(guard)) ==> held(r.0) == held(guard),
        final(trace)@ == old(trace)@.push(
            Deed { pair: *pair, act: Act::Waited(wake, Some(limit), held(r.0)) },
        ),
{
    let (guard, waited) = cv.wait_timeout_while(
        guard,
        limit,
        |state| wake.blocks(state),
    ).unwrap_or_else(|poisoned| poisoned.into_inner());
    (guard, waited.timed_out())
}

/// Whose pen it is decides what can be put with it: the worker's pen is for the worker's
/// side, the other for the side that stops it.
pub proof fn lemma_pens_are_for_their_side(over: ParkState, left: ParkState)
    ensures
        OfWorker::side() == Side::Worker,
        OfStopper::side() == Side::Stopper,
        OfStopper::side().may_change(over, left) ==> left.closed == over.closed,
        OfWorker::side().may_change(over, left) ==> left.pending_request == over.pending_request,
{
}

} // verus!
