//! Stop-the-world checkpointing for trees of workers.
//!
//! [`with_checkpoint_pair`] takes ownership of a node and hands a closure a
//! connected pair: a [`Handle`] for the worker that owns the node and a
//! [`CheckpointRequester`] for the snapshotter. A worker reaches its node
//! through the handle, whose borrows are tied to `&mut self`, so none is live
//! across a `safepoint`. Parking a handle first parks the children it fanned
//! out, so a guard sees the whole tree at rest, and there is at most one guard at a
//! time (see [`crate::calls`]).
//!
//! A worker that is done calls [`Handle::close`]; a snapshotter that is done
//! with a guard calls [`CheckpointGuard::resume`]. Both use their value up: there is
//! no way to a node after a close, and none through a guard after its end.
//!
//! What the other threads do meanwhile decides what a thread finds under a
//! pair's lock. Everything else is fixed: the contracts say which deeds are
//! done, on which pairs and in which order, for every state found (see
//! [`crate::deeds`]).

use crate::deeds::{
    answers,
    close_deeds,
    close_puts,
    look_deeds,
    open_children,
    park_deeds,
    park_puts,
    release_all_deeds,
    release_deeds,
    release_puts,
    stop_all_deeds,
    stop_deeds,
    stop_puts,
    unqueue_deeds,
    Exchange,
    ParkRun,
    RequestRun,
};
use crate::handshake::{Change, Handshake, ParkState, Side, Wake};
use crate::monitor::{
    Deed,
    Gate,
    Monitor,
    OfStopper,
    OfWorker,
    Pen,
    Put,
    Section,
    Spent,
    Trace,
    Turn,
};
use crate::sync::both_pens;
use std::sync::Arc;
use std::time::Duration;
use vstd::prelude::*;

verus! {

/// The answer to one stop request.
struct Stop {
    outcome: Handshake,
    x: Ghost<Exchange>,
}

impl Monitor {
    /// The state as it is right now.
    fn look(&self, trace: &mut Trace) -> (seen: ParkState)
        ensures
            final(trace)@ == old(trace)@ + look_deeds(*self, seen),
    {
        let section = self.enter(trace);
        let seen = section.read();
        section.leave(trace);
        seen
    }

    /// Raise the stop request and wait until the worker parks or closes, or
    /// the time limit runs out. Without a limit the worker has parked or closed.
    fn request_until_parked(
        &self,
        timeout: Option<Duration>,
        pen: &mut Pen<OfStopper>,
        trace: &mut Trace,
    ) -> (r: Stop)
        requires
            old(pen).pair() == *self,
        ensures
            final(pen).pair() == old(pen).pair(),
            final(pen).arc() == old(pen).arc(),
            final(pen).puts() == old(pen).puts() + stop_puts(r.x@),
            r.outcome == r.x@.seen.outcome(),
            r.x@.fits_stop(timeout),
            r.x@.before.spec_is_settled() ==> r.x@.seen == r.x@.before.after_request(),
            r.outcome == Handshake::TimedOut ==> timeout is Some
                && !r.x@.before.spec_is_settled(),
            final(trace)@ == old(trace)@ + stop_deeds(*self, timeout, r.x@),
    {
        let mut section = self.enter(trace);
        let ghost before = section.state();
        section.change(Change::Request, pen, trace);
        let mut section = section.wait(Wake::Settled, timeout, trace);
        let ghost seen = section.state();
        let mut state = section.read();
        let outcome = state.answer();
        section.change(Change::Answer, pen, trace);
        section.leave(trace);
        Stop { outcome, x: Ghost(Exchange { before, seen }) }
    }

    /// Take the stop request back, wake the worker, and wait until it runs
    /// again.
    fn release_request(&self, pen: &mut Pen<OfStopper>, trace: &mut Trace) -> (x: Ghost<Exchange>)
        requires
            old(pen).pair() == *self,
        ensures
            final(pen).pair() == old(pen).pair(),
            final(pen).arc() == old(pen).arc(),
            final(pen).puts() == old(pen).puts() + release_puts(x@),
            x@.fits_release(),
            final(trace)@ == old(trace)@ + release_deeds(*self, x@),
    {
        let mut section = self.enter(trace);
        let ghost before = section.state();
        section.change(Change::Release, pen, trace);
        section.wake(Side::Worker, trace);
        let section = section.wait(Wake::Resumed, None, trace);
        let ghost seen = section.state();
        section.leave(trace);
        Ghost(Exchange { before, seen })
    }

    /// Park until no stop request is up. The lock of the pair is kept.
    fn park(&self, pen: &mut Pen<OfWorker>, trace: &mut Trace) -> (r: (
        Section<'_>,
        Ghost<Exchange>,
    ))
        requires
            old(pen).pair() == *self,
        ensures
            final(pen).pair() == old(pen).pair(),
            final(pen).arc() == old(pen).arc(),
            final(pen).puts() == old(pen).puts() + park_puts(r.1@),
            r.0.wf(),
            r.0.pair() == *self,
            r.1@.fits_park(),
            final(trace)@ == old(trace)@ + park_deeds(*self, r.1@),
    {
        let mut section = self.enter(trace);
        let ghost before = section.state();
        section.change(Change::Park, pen, trace);
        section.wake(Side::Stopper, trace);
        let mut section = section.wait(Wake::Released, None, trace);
        let ghost seen = section.state();
        section.change(Change::Unpark, pen, trace);
        section.wake(Side::Stopper, trace);
        (section, Ghost(Exchange { before, seen }))
    }

    /// Mark the worker gone and wake whoever waits for it to park.
    fn close(&self, pen: &mut Pen<OfWorker>, trace: &mut Trace) -> (before: Ghost<ParkState>)
        requires
            old(pen).pair() == *self,
        ensures
            final(pen).pair() == old(pen).pair(),
            final(pen).arc() == old(pen).arc(),
            final(pen).puts() == old(pen).puts() + close_puts(before@),
            final(trace)@ == old(trace)@ + close_deeds(*self, before@),
    {
        let mut section = self.enter(trace);
        let ghost before = section.state();
        section.change(Change::Close, pen, trace);
        section.wake(Side::Stopper, trace);
        section.leave(trace);
        Ghost(before)
    }
}

/// Drop the children whose answer was that they have closed. The others keep
/// their order.
pub fn retain_open<C>(children: &mut Vec<C>, outcomes: &Vec<Handshake>)
    requires
        old(children)@.len() == outcomes@.len(),
    ensures
        final(children)@ == open_children(old(children)@, outcomes@),
{
    let ghost all = children@;
    let mut kept: usize = 0;
    let mut i: usize = 0;
    assert(all.skip(0) == all);
    while i < outcomes.len()
        invariant
            kept <= i <= all.len() == outcomes@.len(),
            kept == open_children(all.take(i as int), outcomes@.take(i as int)).len(),
            children@ == open_children(all.take(i as int), outcomes@.take(i as int)) + all.skip(
                i as int,
            ),
        decreases outcomes.len() - i,
    {
        proof {
            assert(all.take(i + 1).drop_last() == all.take(i as int));
            assert(outcomes@.take(i + 1).drop_last() == outcomes@.take(i as int));
            assert(all.skip(i as int) == seq![all[i as int]] + all.skip(i + 1));
        }
        if outcomes[i] == Handshake::Closed {
            let _child = children.remove(kept);
        } else {
            kept = kept + 1;
        }
        i = i + 1;
    }
    proof {
        assert(all.take(i as int) == all);
        assert(outcomes@.take(i as int) == outcomes@);
        assert(all.skip(i as int) == Seq::<C>::empty());
    }
}

/// The worker's side of a pair: the only way to a checkpointed node. Its
/// borrows are tied to `&mut self`, and so is `safepoint`, so no reference
/// into the node outlives a park.
pub struct Handle<T> {
    node: Arc<T>,
    /// The worker's pen of the pair.
    pen: Pen<OfWorker>,
    /// The children fanned out from here, each by the pen of the side that stops it:
    /// parking stops them first. A child that has closed is dropped from the list the
    /// next time.
    children: Vec<Pen<OfStopper>>,
    /// Whether workers of a fan-out may still be at work.
    fanning_out: bool,
    trace: Trace,
}

impl<T> Handle<T> {
    /// The node that this handle leads to.
    pub closed spec fn subject(self) -> T {
        *self.node
    }

    /// What this handle shares with the side that stops it.
    pub closed spec fn pair(self) -> Monitor {
        self.pen.pair()
    }

    /// The children that parking this handle stops.
    pub closed spec fn children(self) -> Seq<Arc<Monitor>> {
        arcs_of(self.children@)
    }

    /// All that was changed of this handle's pair from the worker's side.
    pub closed spec fn puts(self) -> Seq<Put> {
        self.pen.puts()
    }

    /// All that was changed of the pair of each child from the side that stops it.
    pub closed spec fn child_puts(self) -> Seq<Seq<Put>> {
        puts_of(self.children@)
    }

    /// A fan-out of this handle is under way.
    pub closed spec fn spec_is_fanning_out(self) -> bool {
        self.fanning_out
    }

    /// The record of this handle.
    pub closed spec fn trace(self) -> Seq<Deed> {
        self.trace@
    }

    /// A safepoint, for the state found at it and, if a request was up, for the
    /// states found while parking. Without a request nothing else is done.
    /// With one, the handle parks, and forgets the children that have closed. Nothing
    /// is changed of any pair but what a park changes.
    pub open spec fn passes_safepoint(
        self,
        after: Handle<T>,
        seen: ParkState,
        run: ParkRun,
    ) -> bool {
        &&& after.subject() == self.subject()
        &&& after.pair() == self.pair()
        &&& after.spec_is_fanning_out() == self.spec_is_fanning_out()
        &&& if seen.pending_request {
            &&& run.fits(self.children())
            &&& after.children() == run.kept(self.children())
            &&& after.puts() == self.puts() + park_puts(run.park)
            &&& after.child_puts() == run.kept_puts(self.child_puts())
            &&& after.trace() == self.trace() + look_deeds(self.pair(), seen) + run.deeds(
                self.pair(),
                self.children(),
            )
        } else {
            &&& after.children() == self.children()
            &&& after.puts() == self.puts()
            &&& after.child_puts() == self.child_puts()
            &&& after.trace() == self.trace() + look_deeds(self.pair(), seen)
        }
    }

    /// Park while a checkpoint has been requested, then return. It needs
    /// `&mut self`: no borrow of the node can be live across it.
    pub fn safepoint(&mut self)
        ensures
            exists|seen: ParkState, run: ParkRun| #[trigger]
                old(self).passes_safepoint(*final(self), seen, run),
    {
        let seen = self.pen.shared().look(&mut self.trace);
        if !seen.pending_request {
            proof {
                let x = Exchange { before: seen, seen };
                let run = ParkRun { stops: Seq::empty(), park: x, releases: Seq::empty() };
                assert(old(self).passes_safepoint(*self, seen, run));
            }
            return ;
        }
        let run = self.park_self();
        assert(old(self).passes_safepoint(*self, seen, run@));
    }

    /// Whether a checkpoint has been requested and not yet released, as found
    /// under the pair's lock.
    pub fn is_stop_requested(&mut self) -> (r: bool)
        ensures
            final(self).subject() == old(self).subject(),
            final(self).pair() == old(self).pair(),
            final(self).children() == old(self).children(),
            final(self).spec_is_fanning_out() == old(self).spec_is_fanning_out(),
            final(self).puts() == old(self).puts(),
            final(self).child_puts() == old(self).child_puts(),
            exists|seen: ParkState|
                r == seen.pending_request && final(self).trace() == old(self).trace()
                    + #[trigger] look_deeds(old(self).pair(), seen),
    {
        let seen = self.pen.shared().look(&mut self.trace);
        assert(self.trace() == old(self).trace() + look_deeds(old(self).pair(), seen));
        seen.pending_request
    }

    /// Stop the children, park, and let the children go on after the park.
    fn park_self(&mut self) -> (run: Ghost<ParkRun>)
        ensures
            final(self).subject() == old(self).subject(),
            final(self).pair() == old(self).pair(),
            final(self).spec_is_fanning_out() == old(self).spec_is_fanning_out(),
            run@.fits(old(self).children()),
            final(self).children() == run@.kept(old(self).children()),
            final(self).puts() == old(self).puts() + park_puts(run@.park),
            final(self).child_puts() == run@.kept_puts(old(self).child_puts()),
            final(self).trace() == old(self).trace() + run@.deeds(
                old(self).pair(),
                old(self).children(),
            ),
    {
        let ghost all = self.children();
        let ghost told = self.child_puts();
        let ghost mut stops: Seq<Exchange> = Seq::empty();
        let mut outcomes: Vec<Handshake> = Vec::new();
        let mut i: usize = 0;
        while i < self.children.len()
            invariant
                self.node == old(self).node,
                self.pen == old(self).pen,
                self.fanning_out == old(self).fanning_out,
                all == self.children(),
                all.len() == self.children@.len(),
                all.len() == told.len(),
                i == outcomes@.len(),
                i == stops.len(),
                i <= all.len(),
                outcomes@ == answers(stops),
                forall|k: int| 0 <= k < i ==> (#[trigger] stops[k]).fits_stop(None),
                forall|k: int|
                    0 <= k < all.len() ==> (#[trigger] self.children@[k]).puts() == if k < i {
                        told[k] + stop_puts(stops[k])
                    } else {
                        told[k]
                    },
                self.trace@ == old(self).trace@ + stop_all_deeds(all.take(i as int), stops),
            decreases all.len() - i,
        {
            let child = self.children[i].shared();
            let ghost before = self.children@;
            assert(all[i as int] == before[i as int].arc());
            let stop = child.request_until_parked(
                None,
                &mut self.children[i],
                &mut self.trace,
            );
            outcomes.push(stop.outcome);
            proof {
                let longer = stops.push(stop.x@);
                assert(longer.drop_last() == stops);
                assert(all.take(i + 1).drop_last() == all.take(i as int));
                assert forall|k: int| 0 <= k < all.len() implies (
                #[trigger] self.children@[k]).puts() == if k < i + 1 {
                    told[k] + stop_puts(longer[k])
                } else {
                    told[k]
                } by {
                    assert(before[k].puts() == if k < i {
                        told[k] + stop_puts(stops[k])
                    } else {
                        told[k]
                    });
                }
                assert(self.children() == all) by {
                    assert forall|k: int| 0 <= k < all.len() implies arcs_of(self.children@)[k]
                        == all[k] by {
                        assert(arcs_of(before)[k] == all[k]);
                    }
                }
                stops = longer;
            }
            i = i + 1;
        }
        assert(all.take(i as int) == all);
        let ghost pens = self.children@;
        retain_open(&mut self.children, &outcomes);
        let ghost kept = self.children();
        let ghost kept_told = self.child_puts();
        proof {
            lemma_open_pens(pens, outcomes@);
            let run = ParkRun {
                stops,
                park: Exchange { before: ParkState::initial(), seen: ParkState::initial() },
                releases: Seq::empty(),
            };
            assert(puts_of(pens) == run.stopped_puts(told));
        }
        let shared = self.pen.shared();
        let (section, park) = shared.park(&mut self.pen, &mut self.trace);
        let ghost parked = self.trace@;
        let ghost pen = self.pen;
        let ghost mut releases: Seq<Exchange> = Seq::empty();
        let mut j: usize = 0;
        while j < self.children.len()
            invariant
                self.node == old(self).node,
                self.pen == pen,
                self.fanning_out == old(self).fanning_out,
                self.children() == kept,
                kept.len() == self.children@.len(),
                kept.len() == kept_told.len(),
                j == releases.len(),
                j <= kept.len(),
                forall|k: int| 0 <= k < j ==> (#[trigger] releases[k]).fits_release(),
                forall|k: int|
                    0 <= k < kept.len() ==> (#[trigger] self.children@[k]).puts() == if k < j {
                        kept_told[k] + release_puts(releases[k])
                    } else {
                        kept_told[k]
                    },
                self.trace@ == parked + release_all_deeds(kept.take(j as int), releases),
            decreases kept.len() - j,
        {
            let child = self.children[j].shared();
            let ghost before = self.children@;
            assert(kept[j as int] == before[j as int].arc());
            let x = child.release_request(&mut self.children[j], &mut self.trace);
            proof {
                let longer = releases.push(x@);
                assert(longer.drop_last() == releases);
                assert(kept.take(j + 1).drop_last() == kept.take(j as int));
                assert forall|k: int| 0 <= k < kept.len() implies (
                #[trigger] self.children@[k]).puts() == if k < j + 1 {
                    kept_told[k] + release_puts(longer[k])
                } else {
                    kept_told[k]
                } by {
                    assert(before[k].puts() == if k < j {
                        kept_told[k] + release_puts(releases[k])
                    } else {
                        kept_told[k]
                    });
                }
                assert(self.children() == kept) by {
                    assert forall|k: int| 0 <= k < kept.len() implies arcs_of(self.children@)[k]
                        == kept[k] by {
                        assert(arcs_of(before)[k] == kept[k]);
                    }
                }
                releases = longer;
            }
            j = j + 1;
        }
        assert(kept.take(j as int) == kept);
        section.leave(&mut self.trace);
        let ghost run = ParkRun { stops, park: park@, releases };
        proof {
            let some = ParkRun {
                stops,
                park: Exchange { before: ParkState::initial(), seen: ParkState::initial() },
                releases: Seq::empty(),
            };
            assert(some.stopped_puts(told) == run.stopped_puts(told));
            assert(self.child_puts() == run.kept_puts(told));
        }
        Ghost(run)
    }

    /// Read the node. The borrow is tied to `&mut self`: no safepoint can
    /// happen while it is live, and a guard is only granted while every handle
    /// is parked.
    pub fn block_and_get(&mut self) -> (r: &T)
        ensures
            *r == old(self).subject(),
            *final(self) == *old(self),
    {
        &*self.node
    }

    /// Fan out over the children of this node: each becomes the node of a
    /// handle of its own, for a worker of its own, and is registered here so
    /// that parking this handle stops it first. Every child has a fresh pair that
    /// nobody else has: neither another child, nor one of an earlier fan-out, nor
    /// this handle. Neither side has changed it: no request is up, and the child is
    /// neither parked nor closed. The fan-out is over when its workers are finished, each having
    /// closed its handle; until then this handle keeps coming to safepoints (see
    /// [`fanout_is_over`](Self::fanout_is_over)).
    pub fn fanout<C>(&mut self, items: Vec<C>) -> (handles: Vec<Handle<C>>)
        ensures
            final(self).subject() == old(self).subject(),
            final(self).pair() == old(self).pair(),
            final(self).trace() == old(self).trace(),
            final(self).spec_is_fanning_out(),
            final(self).puts() == old(self).puts(),
            final(self).child_puts().len() == old(self).child_puts().len() + items@.len(),
            forall|k: int|
                0 <= k < old(self).child_puts().len() ==> #[trigger] final(self).child_puts()[k]
                    == old(self).child_puts()[k],
            handles@.len() == items@.len(),
            final(self).children().len() == old(self).children().len() + items@.len(),
            forall|i: int|
                0 <= i < old(self).children().len() ==> #[trigger] final(self).children()[i]
                    == old(self).children()[i],
            forall|i: int|
                0 <= i < items@.len() ==> {
                    &&& (#[trigger] handles@[i]).subject() == items@[i]
                    &&& handles@[i].pair() == *final(self).children()[old(self).children().len()
                        + i]
                    &&& handles@[i].pair().first_state() == ParkState::initial()
                    &&& !handles@[i].pair().first_state().closed
                    &&& handles@[i].children() == Seq::<Arc<Monitor>>::empty()
                    &&& handles@[i].trace() == Seq::<Deed>::empty()
                    &&& handles@[i].puts() == Seq::<Put>::empty()
                    &&& handles@[i].child_puts() == Seq::<Seq<Put>>::empty()
                    &&& final(self).child_puts()[old(self).child_puts().len() + i] == Seq::<
                        Put,
                    >::empty()
                    &&& !handles@[i].spec_is_fanning_out()
                    &&& handles@[i].pair() != old(self).pair()
                },
            forall|i: int, j: int|
                0 <= i < j < items@.len() ==> (#[trigger] handles@[i]).pair() != (
                #[trigger] handles@[j]).pair(),
            forall|i: int, k: int|
                0 <= i < items@.len() && 0 <= k < old(self).children().len() ==> (
                #[trigger] handles@[i]).pair() != *(#[trigger] old(self).children()[k]),
    {
        let ghost all = items@;
        let ghost n = self.children@.len();
        let ghost first = first_free_place(self.pair(), self.children());
        proof {
            lemma_free_places(self.pair(), self.children());
        }
        let mut handles: Vec<Handle<C>> = Vec::new();
        for item in iter: items
            invariant
                iter.seq() == all,
                n == old(self).children@.len(),
                self.node == old(self).node,
                self.pen == old(self).pen,
                self.trace == old(self).trace,
                handles@.len() == iter.index(),
                self.children@.len() == n + iter.index(),
                forall|i: int| 0 <= i < n ==> #[trigger] self.children@[i] == old(self).children@[i],
                forall|i: int|
                    0 <= i < iter.index() ==> {
                        &&& (#[trigger] handles@[i]).subject() == all[i]
                        &&& handles@[i].pair() == *self.children@[n + i].arc()
                        &&& handles@[i].pair().first_state() == ParkState::initial()
                        &&& handles@[i].pair().place() == first + i
                        &&& handles@[i].children() == Seq::<Arc<Monitor>>::empty()
                        &&& handles@[i].trace() == Seq::<Deed>::empty()
                        &&& handles@[i].puts() == Seq::<Put>::empty()
                        &&& handles@[i].child_puts() == Seq::<Seq<Put>>::empty()
                        &&& self.children@[n + i].puts() == Seq::<Put>::empty()
                        &&& !handles@[i].spec_is_fanning_out()
                    },
        {
            let ghost place = first + handles@.len();
            let (pen, stopper) = both_pens(Monitor::new(Ghost(place)));
            self.children.push(stopper);
            let handle = Handle {
                node: Arc::new(item),
                pen,
                children: Vec::new(),
                fanning_out: false,
                trace: Trace::new(),
            };
            assert(handle.children() == Seq::<Arc<Monitor>>::empty());
            assert(handle.child_puts() == Seq::<Seq<Put>>::empty());
            handles.push(handle);
        }
        proof {
            assert forall|i: int, k: int|
                0 <= i < all.len() && 0 <= k < old(self).children().len() implies (
            #[trigger] handles@[i]).pair() != *(#[trigger] old(self).children()[k]) by {
                assert(handles@[i].pair().place() == first + i);
            }
        }
        self.fanning_out = true;
        handles
    }

    /// Whether a fan-out of this handle is over: every worker of it is finished. To
    /// be asked after each safepoint while the workers run.
    pub fn fanout_is_over(&mut self, finished: &Vec<bool>) -> (over: bool)
        ensures
            over == (forall|i: int| 0 <= i < finished@.len() ==> finished@[i]),
            final(self).spec_is_fanning_out() == (old(self).spec_is_fanning_out() && !over),
            final(self).subject() == old(self).subject(),
            final(self).pair() == old(self).pair(),
            final(self).children() == old(self).children(),
            final(self).puts() == old(self).puts(),
            final(self).child_puts() == old(self).child_puts(),
            final(self).trace() == old(self).trace(),
    {
        if all_finished(finished) {
            self.fanning_out = false;
            true
        } else {
            false
        }
    }

    /// Whether a fan-out of this handle is under way.
    pub fn is_fanning_out(&self) -> (r: bool)
        ensures
            r == self.spec_is_fanning_out(),
    {
        self.fanning_out
    }

    /// The worker is done with its node and will never park again. Whoever
    /// waits for it to park, now or later, is answered that it has closed. The
    /// handle is used up; its record is handed out.
    pub fn close(self) -> (record: Record)
        requires
            !self.spec_is_fanning_out(),
        ensures
            exists|before: ParkState|
                record@ == self.trace() + #[trigger] close_deeds(self.pair(), before)
                    && record.puts() == self.puts() + close_puts(before),
            record.pair() == self.pair(),
            record.child_puts() == self.child_puts(),
    {
        let mut trace = self.trace;
        let mut pen = self.pen;
        let before = pen.shared().close(&mut pen, &mut trace);
        assert(trace@ == self.trace() + close_deeds(self.pair(), before@));
        Record { trace, pen: pen.spend(), children: self.children }
    }
}

/// What is left of a handle or a guard when it has been used up: the record, and all
/// that was changed of the pair with it, and of the pairs of the children.
pub struct Record {
    #[allow(dead_code)]
    trace: Trace,
    #[allow(dead_code)]
    pen: Spent,
    #[allow(dead_code)]
    children: Vec<Pen<OfStopper>>,
}

impl View for Record {
    type V = Seq<Deed>;

    closed spec fn view(&self) -> Seq<Deed> {
        self.trace@
    }
}

impl Record {
    /// The pair.
    pub closed spec fn pair(self) -> Monitor {
        self.pen.pair()
    }

    /// All that was changed of the pair.
    pub closed spec fn puts(self) -> Seq<Put> {
        self.pen.puts()
    }

    /// All that was changed of the pair of each child from the side that stops it.
    pub closed spec fn child_puts(self) -> Seq<Seq<Put>> {
        puts_of(self.children@)
    }
}

/// The pairs that some pens are for.
spec fn arcs_of(pens: Seq<Pen<OfStopper>>) -> Seq<Arc<Monitor>> {
    pens.map_values(|pen: Pen<OfStopper>| pen.arc())
}

/// What was changed with each of some pens.
spec fn puts_of(pens: Seq<Pen<OfStopper>>) -> Seq<Seq<Put>> {
    pens.map_values(|pen: Pen<OfStopper>| pen.puts())
}

proof fn lemma_open_pens(pens: Seq<Pen<OfStopper>>, outcomes: Seq<Handshake>)
    ensures
        arcs_of(open_children(pens, outcomes)) == open_children(arcs_of(pens), outcomes),
        puts_of(open_children(pens, outcomes)) == open_children(puts_of(pens), outcomes),
    decreases pens.len(),
{
    if pens.len() > 0 {
        lemma_open_pens(pens.drop_last(), outcomes.drop_last());
        assert(arcs_of(pens).drop_last() == arcs_of(pens.drop_last()));
        assert(puts_of(pens).drop_last() == puts_of(pens.drop_last()));
        let rest = open_children(pens.drop_last(), outcomes.drop_last());
        assert(arcs_of(rest.push(pens.last())) == arcs_of(rest).push(pens.last().arc()));
        assert(puts_of(rest.push(pens.last())) == puts_of(rest).push(pens.last().puts()));
    }
    assert(arcs_of(open_children(pens, outcomes)) == open_children(arcs_of(pens), outcomes));
    assert(puts_of(open_children(pens, outcomes)) == open_children(puts_of(pens), outcomes));
}

/// A place above those of a pair and of a list of pairs.
spec fn first_free_place(pair: Monitor, children: Seq<Arc<Monitor>>) -> int
    decreases children.len(),
{
    if children.len() == 0 {
        pair.place() + 1
    } else {
        let rest = first_free_place(pair, children.drop_last());
        if children.last().place() < rest {
            rest
        } else {
            children.last().place() + 1
        }
    }
}

proof fn lemma_free_places(pair: Monitor, children: Seq<Arc<Monitor>>)
    ensures
        pair.place() < first_free_place(pair, children),
        forall|k: int|
            0 <= k < children.len() ==> (#[trigger] children[k]).place() < first_free_place(
                pair,
                children,
            ),
    decreases children.len(),
{
    if children.len() > 0 {
        lemma_free_places(pair, children.drop_last());
        assert forall|k: int| 0 <= k < children.len() implies (#[trigger] children[k]).place()
            < first_free_place(pair, children) by {
            if k < children.len() - 1 {
                assert(children.drop_last()[k] == children[k]);
            }
        }
    }
}

/// Whether every worker is finished.
pub fn all_finished(finished: &Vec<bool>) -> (r: bool)
    ensures
        r == (forall|i: int| 0 <= i < finished@.len() ==> finished@[i]),
{
    let mut i: usize = 0;
    while i < finished.len()
        invariant
            i <= finished@.len(),
            forall|k: int| 0 <= k < i ==> finished@[k],
        decreases finished.len() - i,
    {
        if !finished[i] {
            return false;
        }
        i = i + 1;
    }
    true
}

/// The snapshotter's side of a pair. It may be cloned and shared: requests
/// come one after the other by themselves.
pub struct CheckpointRequester<T> {
    node: Arc<T>,
    gate: Arc<Gate>,
}

impl<T> CheckpointRequester<T> {
    /// The node that a guard of this requester reads.
    pub closed spec fn subject(self) -> T {
        *self.node
    }

    /// What this requester shares with the handle that it stops.
    pub closed spec fn pair(self) -> Monitor {
        self.gate.pair()
    }

    /// Stop the world and return a guard that reads the top-level node. Blocks
    /// until the handle is parked; one that has closed hands the guard out at
    /// once. A second request blocks until the guard of the first is gone.
    pub fn request(&self) -> (r: Option<CheckpointGuard<'_, T>>)
        ensures
            r matches Some(guard) && guard.is_granted_by(*self, None),
    {
        match self.request_impl(None) {
            Ok(guard) => Some(guard),
            Err(_refusal) => None,
        }
    }

    /// [`request`](Self::request) with a time limit: gives up, with `None`, if
    /// the world has not stopped in time. It returns what
    /// [`request_impl`](Self::request_impl) came to under that limit.
    pub fn request_timeout(&self, timeout: Duration) -> (r: Option<CheckpointGuard<'_, T>>)
        ensures
            r matches Some(guard) ==> guard.is_granted_by(*self, Some(timeout)),
            exists|answer: Result<CheckpointGuard<'_, T>, Refusal>|
                #[trigger] call_ensures(Self::request_impl, (self, Some(timeout)), answer) && r
                    == answer.ok(),
    {
        match self.request_impl(Some(timeout)) {
            Ok(guard) => Some(guard),
            Err(_refusal) => None,
        }
    }

    /// Take the place in the queue, for the whole life of the returned guard,
    /// and run the handshake. It is refused only if the time limit ran out
    /// before the handle was parked or gone.
    pub fn request_impl(&self, timeout: Option<Duration>) -> (r: Result<
        CheckpointGuard<'_, T>,
        Refusal,
    >)
        ensures
            match r {
                Ok(guard) => guard.is_granted_by(*self, timeout),
                Err(refusal) => timeout is Some && refusal.is_answer_on(self.pair(), timeout),
            },
    {
        let mut trace = Trace::new();
        let pair = self.gate.shared();
        let first = pair.look(&mut trace);
        let mut turn = self.gate.turn(pair.queue(&mut trace));
        let second = pair.look(&mut trace);
        let ghost mut reset = Exchange { before: second, seen: second };
        if second.pending_request {
            let x = pair.release_request(turn.pen_mut(), &mut trace);
            proof {
                reset = x@;
            }
        }
        if first.closed {
            let ghost run = RequestRun { first, second, reset, stop: reset };
            assert(trace@ == run.deeds(*pair, timeout));
            assert(turn.pen().puts() == run.puts());
            let guard = CheckpointGuard {
                node: &self.node,
                turn,
                granted: Ghost(first),
                trace,
            };
            assert(guard.trace() == run.deeds(guard.pair(), timeout));
            return Ok(guard);
        }
        let stop = pair.request_until_parked(timeout, turn.pen_mut(), &mut trace);
        let ghost run = RequestRun { first, second, reset, stop: stop.x@ };
        assert(trace@ == run.deeds(*pair, timeout));
        assert(turn.pen().puts() == run.puts());
        if stop.outcome.grants() {
            let guard = CheckpointGuard {
                node: &self.node,
                turn,
                granted: Ghost(stop.x@.seen),
                trace,
            };
            assert(guard.trace() == run.deeds(guard.pair(), timeout));
            Ok(guard)
        } else {
            let pen = turn.end(pair, &mut trace);
            let refusal = Refusal { trace, pen };
            assert(refusal.trace() == run.deeds(self.pair(), timeout) + unqueue_deeds(
                self.pair(),
            ));
            Err(refusal)
        }
    }
}

/// The answer to a request that came to nothing.
pub struct Refusal {
    #[allow(dead_code)]
    trace: Trace,
    #[allow(dead_code)]
    pen: Spent,
}

impl Refusal {
    /// The record of the request.
    pub closed spec fn trace(self) -> Seq<Deed> {
        self.trace@
    }

    /// All that was changed of the pair by the request.
    pub closed spec fn puts(self) -> Seq<Put> {
        self.pen.puts()
    }

    /// The refusal of a request: the handshake was run as a request runs it, the
    /// state that decides was one in which the handle is neither parked nor gone,
    /// nothing else was changed of the pair, and the place in the queue was given up.
    pub open spec fn is_answer_on(self, pair: Monitor, limit: Option<Duration>) -> bool {
        exists|run: RequestRun|
            self.trace() == #[trigger] run.deeds(pair, limit) + unqueue_deeds(pair) && run.fits(
                limit,
            ) && !run.decisive().spec_is_settled() && self.puts() == run.puts()
    }
}

impl<T> Clone for CheckpointRequester<T> {
    fn clone(&self) -> (r: Self)
        ensures
            r.subject() == self.subject(),
            r.pair() == self.pair(),
    {
        CheckpointRequester { node: self.node.clone(), gate: self.gate.clone() }
    }
}

/// Read access to the top-level node while every worker is at rest.
pub struct CheckpointGuard<'a, T> {
    node: &'a Arc<T>,
    /// Held for the guard's whole life: other requesters wait for it, and nobody else
    /// has the pen of the side that stops the handle.
    turn: Turn<'a>,
    /// The state of the pair in which the guard was granted.
    granted: Ghost<ParkState>,
    trace: Trace,
}

impl<'a, T> CheckpointGuard<'a, T> {
    /// A guard is only made in a state in which the handle is parked or gone, and
    /// keeps its place in the queue.
    #[verifier::type_invariant]
    closed spec fn granted_at_rest(self) -> bool {
        self.granted@.spec_is_settled() && self.holds_queue()
    }

    /// The node that this guard reads.
    pub closed spec fn subject(self) -> T {
        **self.node
    }

    /// What this guard shares with the handle that it stopped.
    pub closed spec fn pair(self) -> Monitor {
        self.turn.pen().pair()
    }

    /// The state of the pair in which the guard was granted.
    pub closed spec fn granted(self) -> ParkState {
        self.granted@
    }

    /// The guard keeps the other requesters of its pair waiting.
    pub closed spec fn holds_queue(self) -> bool {
        self.turn.holds_queue()
    }

    /// All that was changed of the pair, from the side that stops the handle, since
    /// the request took its place in the queue.
    pub closed spec fn puts(self) -> Seq<Put> {
        self.turn.pen().puts()
    }

    /// The record of the request that this guard is of.
    pub closed spec fn trace(self) -> Seq<Deed> {
        self.trace@
    }

    /// The guard of a request: it reads the requester's node and holds the queue of
    /// its pair, the handshake was run as a request runs it and nothing else was
    /// changed of the pair, and the state that decides was one in which the handle is
    /// parked or gone.
    pub open spec fn is_granted_by(
        self,
        requester: CheckpointRequester<T>,
        limit: Option<Duration>,
    ) -> bool {
        &&& self.subject() == requester.subject()
        &&& self.pair() == requester.pair()
        &&& self.holds_queue()
        &&& self.granted().spec_is_settled()
        &&& exists|run: RequestRun|
            self.trace() == #[trigger] run.deeds(self.pair(), limit) && run.fits(limit)
                && self.granted() == run.decisive() && self.puts() == run.puts()
    }

    /// The top-level node, at rest: every worker that could reach it is parked
    /// or gone.
    pub fn node(&self) -> (r: &T)
        ensures
            *r == self.subject(),
            self.granted().spec_is_settled(),
    {
        proof {
            use_type_invariant(self);
        }
        &**self.node
    }

    /// Let the world go on: take the stop back, wait until the handle runs again,
    /// and let the next requester go to work. The guard is used up; its record is
    /// handed out.
    pub fn resume(self) -> (record: Record)
        ensures
            exists|x: Exchange|
                x.fits_release() && record@ == self.trace() + #[trigger] release_deeds(
                    self.pair(),
                    x,
                ) + unqueue_deeds(self.pair()) && record.puts() == self.puts() + release_puts(x),
            record.pair() == self.pair(),
            record.child_puts() == Seq::<Seq<Put>>::empty(),
    {
        proof {
            use_type_invariant(&self);
        }
        let mut trace = self.trace;
        let mut turn = self.turn;
        let shared = turn.pen_mut().shared();
        let x = shared.release_request(turn.pen_mut(), &mut trace);
        let pen = turn.end(&*shared, &mut trace);
        assert(trace@ == self.trace() + release_deeds(self.pair(), x@) + unqueue_deeds(
            self.pair(),
        ));
        let record = Record { trace, pen, children: Vec::new() };
        assert(record.child_puts() == Seq::<Seq<Put>>::empty());
        record
    }
}

/// The two sides of a fresh pair around a node.
pub open spec fn is_fresh_pair<T>(
    node: T,
    handle: Handle<T>,
    requester: CheckpointRequester<T>,
) -> bool {
    &&& handle.subject() == node
    &&& requester.subject() == node
    &&& handle.pair() == requester.pair()
    &&& handle.pair().first_state() == ParkState::initial()
    &&& handle.children() == Seq::<Arc<Monitor>>::empty()
    &&& handle.trace() == Seq::<Deed>::empty()
    &&& handle.puts() == Seq::<Put>::empty()
    &&& handle.child_puts() == Seq::<Seq<Put>>::empty()
    &&& !handle.spec_is_fanning_out()
}

/// Take ownership of `node` and hand `f` a connected handle and requester.
pub fn with_checkpoint_pair<T, R>(
    node: T,
    f: impl FnOnce(Handle<T>, CheckpointRequester<T>) -> R,
) -> (r: R)
    requires
        forall|handle: Handle<T>, requester: CheckpointRequester<T>| #[trigger]
            is_fresh_pair(node, handle, requester) ==> f.requires((handle, requester)),
    ensures
        exists|handle: Handle<T>, requester: CheckpointRequester<T>| #[trigger]
            is_fresh_pair(node, handle, requester) && f.ensures((handle, requester), r),
{
    let node = Arc::new(node);
    let (pen, stopper) = both_pens(Monitor::new(Ghost(0)));
    let handle = Handle {
        node: node.clone(),
        pen,
        children: Vec::new(),
        fanning_out: false,
        trace: Trace::new(),
    };
    let requester = CheckpointRequester { node, gate: Arc::new(Gate::new(stopper)) };
    assert(handle.children() == Seq::<Arc<Monitor>>::empty());
    assert(handle.child_puts() == Seq::<Seq<Put>>::empty());
    assert(is_fresh_pair(*node, handle, requester));
    f(handle, requester)
}

/// What a fresh pair is, piece by piece: handle and requester lead to the node and share
/// one pair, on which no flag was up when it was made; the handle has changed nothing of
/// it, has no children, has done nothing, and is not fanning out.
pub proof fn lemma_fresh_pair_piece_by_piece<T>(
    node: T,
    handle: Handle<T>,
    requester: CheckpointRequester<T>,
)
    requires
        is_fresh_pair(node, handle, requester),
    ensures
        handle.subject() == node,
        requester.subject() == node,
        handle.pair() == requester.pair(),
        !handle.pair().first_state().pending_request,
        !handle.pair().first_state().parked,
        !handle.pair().first_state().closed,
        handle.puts().len() == 0,
        handle.children().len() == 0,
        handle.child_puts().len() == 0,
        handle.trace().len() == 0,
        !handle.spec_is_fanning_out(),
{
}

/// What a granted guard is, piece by piece: it reads the requester's node, is for the
/// requester's pair, keeps the other requesters waiting, and was granted over a handle
/// that was parked or gone.
pub proof fn lemma_granted_guard_piece_by_piece<T>(
    guard: CheckpointGuard<'_, T>,
    requester: CheckpointRequester<T>,
    limit: Option<Duration>,
)
    requires
        guard.is_granted_by(requester, limit),
    ensures
        guard.subject() == requester.subject(),
        guard.pair() == requester.pair(),
        guard.holds_queue(),
        guard.granted().parked || guard.granted().closed,
{
}

} // verus!
