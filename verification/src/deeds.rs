//! What the two sides of a pair do, deed by deed, for every state they may
//! find.

use crate::handshake::{Handshake, ParkState, Side, Wake};
use crate::monitor::{Act, Deed, Monitor, Put};
use std::sync::Arc;
use std::time::Duration;
use vstd::prelude::*;

verus! {

/// The states found under a pair's lock in one section with a wait in it.
pub struct Exchange {
    /// The state when the lock was taken.
    pub before: ParkState,
    /// The state when the wait ended.
    pub seen: ParkState,
}

impl Exchange {
    /// The states that stopping a worker can find. Without a limit the worker has
    /// parked or closed in the end. One that had when it was asked is left as it
    /// was, whatever the limit.
    pub open spec fn fits_stop(self, limit: Option<Duration>) -> bool {
        &&& limit is None ==> self.seen.spec_is_settled()
        &&& self.before.spec_is_settled() ==> self.seen == self.before.after_request()
    }

    /// The states that releasing a worker can find: in the end it runs again or
    /// has closed. One that was not parked is left as it was.
    pub open spec fn fits_release(self) -> bool {
        &&& self.seen.spec_is_resumed()
        &&& self.before.spec_is_resumed() ==> self.seen == self.before.after_release()
    }

    /// The states that a park can find: in the end no request is up. If none was
    /// when the worker parked, nothing happens meanwhile.
    pub open spec fn fits_park(self) -> bool {
        &&& !self.seen.pending_request
        &&& !self.before.pending_request ==> self.seen == self.before.after_park()
    }
}

/// Stop a worker: raise the request, wait until the worker has parked or
/// closed or the limit is over, and take the answer.
pub open spec fn stop_deeds(pair: Monitor, limit: Option<Duration>, x: Exchange) -> Seq<Deed> {
    seq![
        Deed { pair, act: Act::Entered(x.before) },
        Deed { pair, act: Act::Wrote(x.before.after_request()) },
        Deed { pair, act: Act::Waited(Wake::Settled, limit, x.seen) },
        Deed { pair, act: Act::Wrote(x.seen.after_answer()) },
        Deed { pair, act: Act::Left },
    ]
}

/// Release a worker: take the request back, wake the worker, and wait until it
/// runs again.
pub open spec fn release_deeds(pair: Monitor, x: Exchange) -> Seq<Deed> {
    seq![
        Deed { pair, act: Act::Entered(x.before) },
        Deed { pair, act: Act::Wrote(x.before.after_release()) },
        Deed { pair, act: Act::Woke(Side::Worker) },
        Deed { pair, act: Act::Waited(Wake::Resumed, None, x.seen) },
        Deed { pair, act: Act::Left },
    ]
}

/// Park: say so, wait until the request is gone, and say that it is over. The lock
/// is kept.
pub open spec fn park_deeds(pair: Monitor, x: Exchange) -> Seq<Deed> {
    seq![
        Deed { pair, act: Act::Entered(x.before) },
        Deed { pair, act: Act::Wrote(x.before.after_park()) },
        Deed { pair, act: Act::Woke(Side::Stopper) },
        Deed { pair, act: Act::Waited(Wake::Released, None, x.seen) },
        Deed { pair, act: Act::Wrote(x.seen.after_unpark()) },
        Deed { pair, act: Act::Woke(Side::Stopper) },
    ]
}

/// Close: say so, and wake whoever waits for a park.
pub open spec fn close_deeds(pair: Monitor, before: ParkState) -> Seq<Deed> {
    seq![
        Deed { pair, act: Act::Entered(before) },
        Deed { pair, act: Act::Wrote(before.after_close()) },
        Deed { pair, act: Act::Woke(Side::Stopper) },
        Deed { pair, act: Act::Left },
    ]
}

/// What stopping a worker changes: the request, and the answer to it.
pub open spec fn stop_puts(x: Exchange) -> Seq<Put> {
    seq![
        Put { over: x.before, left: x.before.after_request() },
        Put { over: x.seen, left: x.seen.after_answer() },
    ]
}

/// What releasing a worker changes.
pub open spec fn release_puts(x: Exchange) -> Seq<Put> {
    seq![Put { over: x.before, left: x.before.after_release() }]
}

/// What a park changes.
pub open spec fn park_puts(x: Exchange) -> Seq<Put> {
    seq![
        Put { over: x.before, left: x.before.after_park() },
        Put { over: x.seen, left: x.seen.after_unpark() },
    ]
}

/// What a close changes.
pub open spec fn close_puts(before: ParkState) -> Seq<Put> {
    seq![Put { over: before, left: before.after_close() }]
}

/// Look at a pair.
pub open spec fn look_deeds(pair: Monitor, seen: ParkState) -> Seq<Deed> {
    seq![Deed { pair, act: Act::Entered(seen) }, Deed { pair, act: Act::Left }]
}

/// Give the lock of a pair back.
pub open spec fn leave_deeds(pair: Monitor) -> Seq<Deed> {
    seq![Deed { pair, act: Act::Left }]
}

/// Take the place in the queue of a pair's requesters.
pub open spec fn queue_deeds(pair: Monitor) -> Seq<Deed> {
    seq![Deed { pair, act: Act::Queued }]
}

/// Give the place in the queue up.
pub open spec fn unqueue_deeds(pair: Monitor) -> Seq<Deed> {
    seq![Deed { pair, act: Act::Unqueued }]
}

/// Stop the children, one after the other.
pub open spec fn stop_all_deeds(children: Seq<Arc<Monitor>>, stops: Seq<Exchange>) -> Seq<Deed>
    decreases children.len(),
{
    if children.len() == 0 {
        Seq::empty()
    } else {
        stop_all_deeds(children.drop_last(), stops.drop_last()) + stop_deeds(
            *children.last(),
            None,
            stops.last(),
        )
    }
}

/// Release the children, one after the other.
pub open spec fn release_all_deeds(
    children: Seq<Arc<Monitor>>,
    releases: Seq<Exchange>,
) -> Seq<Deed>
    decreases children.len(),
{
    if children.len() == 0 {
        Seq::empty()
    } else {
        release_all_deeds(children.drop_last(), releases.drop_last()) + release_deeds(
            *children.last(),
            releases.last(),
        )
    }
}

/// The children that are still to be stopped: those whose answer was not that
/// they have closed, in their order.
pub open spec fn open_children<C>(children: Seq<C>, outcomes: Seq<Handshake>) -> Seq<C>
    decreases children.len(),
{
    if children.len() == 0 {
        Seq::empty()
    } else {
        let rest = open_children(children.drop_last(), outcomes.drop_last());
        if outcomes.last() == Handshake::Closed {
            rest
        } else {
            rest.push(children.last())
        }
    }
}

/// What the children answered.
pub open spec fn answers(stops: Seq<Exchange>) -> Seq<Handshake> {
    stops.map_values(|x: Exchange| x.seen.outcome())
}

/// The states found while a handle parked.
pub struct ParkRun {
    pub stops: Seq<Exchange>,
    pub park: Exchange,
    pub releases: Seq<Exchange>,
}

impl ParkRun {
    /// The children that go on being stopped.
    pub open spec fn kept(self, children: Seq<Arc<Monitor>>) -> Seq<Arc<Monitor>> {
        open_children(children, answers(self.stops))
    }

    /// The states that the waits of a park can end with: each child parked or
    /// closed, the request gone, each child that is kept running again.
    pub open spec fn fits(self, children: Seq<Arc<Monitor>>) -> bool {
        &&& self.stops.len() == children.len()
        &&& forall|i: int|
            0 <= i < self.stops.len() ==> (#[trigger] self.stops[i]).fits_stop(None)
        &&& self.park.fits_park()
        &&& self.releases.len() == self.kept(children).len()
        &&& forall|i: int|
            0 <= i < self.releases.len() ==> (#[trigger] self.releases[i]).fits_release()
    }

    /// What was changed of each child's pair once all are stopped.
    pub open spec fn stopped_puts(self, told: Seq<Seq<Put>>) -> Seq<Seq<Put>> {
        Seq::new(told.len(), |k: int| told[k] + stop_puts(self.stops[k]))
    }

    /// What was changed of the pair of each child that is kept, in the end.
    pub open spec fn kept_puts(self, told: Seq<Seq<Put>>) -> Seq<Seq<Put>> {
        let kept = open_children(self.stopped_puts(told), answers(self.stops));
        Seq::new(kept.len(), |k: int| kept[k] + release_puts(self.releases[k]))
    }

    /// A park: stop every child, park, and only then release the children that
    /// have not closed. The pair's own lock is kept until the last of them runs
    /// again.
    pub open spec fn deeds(self, pair: Monitor, children: Seq<Arc<Monitor>>) -> Seq<Deed> {
        stop_all_deeds(children, self.stops) + park_deeds(pair, self.park) + release_all_deeds(
            self.kept(children),
            self.releases,
        ) + leave_deeds(pair)
    }
}

/// The states found while a requester stopped the world.
pub struct RequestRun {
    /// At the first look.
    pub first: ParkState,
    /// At the second look, once no other requester is at work.
    pub second: ParkState,
    pub reset: Exchange,
    pub stop: Exchange,
}

impl RequestRun {
    /// The state that decides on the request: the first one if the worker had
    /// closed by then, else the one in which the wait for it ended.
    pub open spec fn decisive(self) -> ParkState {
        if self.first.closed {
            self.first
        } else {
            self.stop.seen
        }
    }

    /// What a request changes.
    pub open spec fn puts(self) -> Seq<Put> {
        (if self.second.pending_request {
            release_puts(self.reset)
        } else {
            Seq::empty()
        }) + (if self.first.closed {
            Seq::empty()
        } else {
            stop_puts(self.stop)
        })
    }

    /// The states that a request can find.
    pub open spec fn fits(self, limit: Option<Duration>) -> bool {
        &&& self.second.pending_request ==> self.reset.fits_release()
        &&& !self.first.closed ==> self.stop.fits_stop(limit)
    }

    /// A request: look whether the worker has closed, queue up behind the other
    /// requesters, take back a request that nobody is there to take back, and
    /// stop the worker unless it has closed.
    pub open spec fn deeds(self, pair: Monitor, limit: Option<Duration>) -> Seq<Deed> {
        look_deeds(pair, self.first) + queue_deeds(pair) + look_deeds(
            pair,
            self.second,
        ) + (if self.second.pending_request {
            release_deeds(pair, self.reset)
        } else {
            Seq::empty()
        }) + (if self.first.closed {
            Seq::empty()
        } else {
            stop_deeds(pair, limit, self.stop)
        })
    }
}

spec fn pair_of(child: Arc<Monitor>) -> Monitor {
    *child
}

/// The state under the lock when the deed at `i` was done: the one that the deed
/// before it found or left there.
pub open spec fn state_at(deeds: Seq<Deed>, i: int) -> ParkState {
    match deeds[i - 1].act {
        Act::Entered(state) => state,
        Act::Wrote(state) => state,
        Act::Waited(_, _, state) => state,
        _ => arbitrary(),
    }
}

/// The deed at `i`, if it writes, writes over a state that the thread has found,
/// and if that ends a wait of one side of the pair, that side is woken up at once.
pub open spec fn announces(deeds: Seq<Deed>, i: int) -> bool {
    deeds[i].act matches Act::Wrote(after) ==> {
        &&& i > 0
        &&& deeds[i - 1].pair == deeds[i].pair
        &&& deeds[i - 1].act is Entered || deeds[i - 1].act is Wrote || deeds[i - 1].act is Waited
        &&& forall|wake: Wake| #[trigger]
            wake.ends(state_at(deeds, i), after) ==> i + 1 < deeds.len() && deeds[i + 1] == (Deed {
                pair: deeds[i].pair,
                act: Act::Woke(wake.spec_side()),
            })
    }
}

/// Every write that may end a wait of one side of a pair is followed at once by
/// waking that side up.
pub open spec fn announces_changes(deeds: Seq<Deed>) -> bool {
    forall|i: int| 0 <= i < deeds.len() ==> #[trigger] announces(deeds, i)
}

proof fn lemma_announcing_is_additive(a: Seq<Deed>, b: Seq<Deed>)
    requires
        announces_changes(a),
        announces_changes(b),
    ensures
        announces_changes(a + b),
{
    let deeds = a + b;
    assert forall|i: int| 0 <= i < deeds.len() implies #[trigger] announces(deeds, i) by {
        let (part, j) = if i < a.len() {
            (a, i)
        } else {
            (b, i - a.len())
        };
        assert(announces(part, j));
        assert(part[j] == deeds[i]);
        if let Act::Wrote(after) = deeds[i].act {
            assert(part[j - 1] == deeds[i - 1]);
            assert(state_at(part, j) == state_at(deeds, i));
            assert forall|wake: Wake| #[trigger]
                wake.ends(state_at(deeds, i), after) implies i + 1 < deeds.len() && deeds[i + 1]
                == (Deed { pair: deeds[i].pair, act: Act::Woke(wake.spec_side()) }) by {
                assert(wake.ends(state_at(part, j), after));
                assert(part[j + 1] == deeds[i + 1]);
            }
        }
    }
}

proof fn lemma_single_sections_announce(
    pair: Monitor,
    limit: Option<Duration>,
    x: Exchange,
    before: ParkState,
)
    ensures
        announces_changes(stop_deeds(pair, limit, x)),
        announces_changes(release_deeds(pair, x)),
        announces_changes(park_deeds(pair, x)),
        announces_changes(close_deeds(pair, before)),
        announces_changes(look_deeds(pair, before)),
        announces_changes(leave_deeds(pair)),
        announces_changes(queue_deeds(pair)),
        announces_changes(unqueue_deeds(pair)),
{
}

proof fn lemma_stopping_all_announces(children: Seq<Arc<Monitor>>, stops: Seq<Exchange>)
    ensures
        announces_changes(stop_all_deeds(children, stops)),
    decreases children.len(),
{
    if children.len() > 0 {
        let x = stops.last();
        let pair = pair_of(children.last());
        lemma_stopping_all_announces(children.drop_last(), stops.drop_last());
        lemma_single_sections_announce(pair, None, x, x.before);
        lemma_announcing_is_additive(
            stop_all_deeds(children.drop_last(), stops.drop_last()),
            stop_deeds(pair, None, x),
        );
    }
}

proof fn lemma_releasing_all_announces(children: Seq<Arc<Monitor>>, releases: Seq<Exchange>)
    ensures
        announces_changes(release_all_deeds(children, releases)),
    decreases children.len(),
{
    if children.len() > 0 {
        let x = releases.last();
        let pair = pair_of(children.last());
        lemma_releasing_all_announces(children.drop_last(), releases.drop_last());
        lemma_single_sections_announce(pair, None, x, x.before);
        lemma_announcing_is_additive(
            release_all_deeds(children.drop_last(), releases.drop_last()),
            release_deeds(pair, x),
        );
    }
}

/// No wakeup is lost: whatever a handle does at a safepoint or at its end, and
/// whatever a requester does from its request to the end of its guard, each
/// change that the other side may wait for is announced to it under the same
/// lock.
pub proof fn lemma_no_wakeup_is_lost(
    pair: Monitor,
    children: Seq<Arc<Monitor>>,
    limit: Option<Duration>,
    park: ParkRun,
    request: RequestRun,
    x: Exchange,
    before: ParkState,
)
    ensures
        announces_changes(look_deeds(pair, before) + park.deeds(pair, children)),
        announces_changes(close_deeds(pair, before)),
        announces_changes(request.deeds(pair, limit) + release_deeds(pair, x) + unqueue_deeds(pair)),
        announces_changes(request.deeds(pair, limit) + unqueue_deeds(pair)),
{
    lemma_single_sections_announce(pair, limit, park.park, before);
    lemma_single_sections_announce(pair, limit, x, request.first);
    lemma_single_sections_announce(pair, limit, request.reset, request.second);
    lemma_single_sections_announce(pair, limit, request.stop, request.second);
    lemma_stopping_all_announces(children, park.stops);
    lemma_releasing_all_announces(park.kept(children), park.releases);
    let stops = stop_all_deeds(children, park.stops);
    lemma_announcing_is_additive(stops, park_deeds(pair, park.park));
    let releases = release_all_deeds(park.kept(children), park.releases);
    lemma_announcing_is_additive(stops + park_deeds(pair, park.park), releases);
    lemma_announcing_is_additive(
        stops + park_deeds(pair, park.park) + releases,
        leave_deeds(pair),
    );
    lemma_announcing_is_additive(look_deeds(pair, before), park.deeds(pair, children));
    let queued = queue_deeds(pair);
    let reset = if request.second.pending_request {
        release_deeds(pair, request.reset)
    } else {
        Seq::empty()
    };
    let stop = if request.first.closed {
        Seq::empty()
    } else {
        stop_deeds(pair, limit, request.stop)
    };
    let first = look_deeds(pair, request.first);
    let second = look_deeds(pair, request.second);
    lemma_announcing_is_additive(first, queued);
    lemma_announcing_is_additive(first + queued, second);
    lemma_announcing_is_additive(first + queued + second, reset);
    lemma_announcing_is_additive(first + queued + second + reset, stop);
    lemma_announcing_is_additive(request.deeds(pair, limit), release_deeds(pair, x));
    lemma_announcing_is_additive(
        request.deeds(pair, limit) + release_deeds(pair, x),
        unqueue_deeds(pair),
    );
    lemma_announcing_is_additive(request.deeds(pair, limit), unqueue_deeds(pair));
}

/// A request that is refused is withdrawn: the worker was neither parked nor gone
/// when it was asked, nor when the time was over, and the request was taken down
/// before the lock was given back.
pub proof fn lemma_refused_request_is_withdrawn(
    pair: Monitor,
    limit: Option<Duration>,
    run: RequestRun,
)
    requires
        run.fits(limit),
        !run.decisive().spec_is_settled(),
    ensures
        limit is Some,
        !run.first.closed,
        !run.stop.before.spec_is_settled(),
        !run.stop.seen.spec_is_settled(),
        run.deeds(pair, limit).len() > 1,
        run.deeds(pair, limit).last() == (Deed { pair, act: Act::Left }),
        run.deeds(pair, limit)[run.deeds(pair, limit).len() - 2] == (Deed {
            pair,
            act: Act::Wrote(run.stop.seen.after_answer()),
        }),
        !run.stop.seen.after_answer().pending_request,
        run.stop.seen.after_answer() == run.stop.seen.after_release(),
{
    let stop = stop_deeds(pair, limit, run.stop);
    let all = run.deeds(pair, limit);
    assert(all[all.len() - 1] == stop[stop.len() - 1]);
    assert(all[all.len() - 2] == stop[stop.len() - 2]);
}

/// A worker that has parked or closed when it is asked is found so, whatever the
/// limit: a parked one keeps the request up, a closed one leaves none.
pub proof fn lemma_settled_worker_beats_any_limit(limit: Option<Duration>, x: Exchange)
    requires
        x.fits_stop(limit),
        x.before.spec_is_settled(),
    ensures
        x.seen.outcome() == x.before.outcome(),
        x.seen.outcome().spec_grants(),
        x.seen.after_answer().pending_request == x.before.parked,
{
}

/// The changes among some deeds: what each write put over what.
pub open spec fn puts_in(deeds: Seq<Deed>) -> Seq<Put>
    decreases deeds.len(),
{
    if deeds.len() == 0 {
        Seq::empty()
    } else {
        let rest = puts_in(deeds.drop_last());
        match deeds.last().act {
            Act::Wrote(state) => rest.push(
                Put { over: state_at(deeds, deeds.len() - 1), left: state },
            ),
            _ => rest,
        }
    }
}

proof fn lemma_puts_add(a: Seq<Deed>, b: Seq<Deed>)
    requires
        b.len() > 0 ==> !(b[0].act is Wrote),
    ensures
        puts_in(a + b) == puts_in(a) + puts_in(b),
    decreases b.len(),
{
    if b.len() == 0 {
        assert(a + b == a);
        assert(puts_in(a) + puts_in(b) == puts_in(a));
    } else {
        let all = a + b;
        assert(all.drop_last() == a + b.drop_last());
        if b.len() > 1 {
            assert(b.drop_last()[0] == b[0]);
            assert(all[all.len() - 2] == b[b.len() - 2]);
        }
        lemma_puts_add(a, b.drop_last());
        assert(puts_in(all) == puts_in(a) + puts_in(b));
    }
}

proof fn lemma_puts_pushed(deeds: Seq<Deed>, d: Deed)
    ensures
        puts_in(deeds.push(d)) == match d.act {
            Act::Wrote(state) => puts_in(deeds).push(
                Put { over: state_at(deeds.push(d), deeds.len() as int), left: state },
            ),
            _ => puts_in(deeds),
        },
{
    assert(deeds.push(d).drop_last() == deeds);
}

proof fn lemma_puts_of_first(d: Deed)
    requires
        !(d.act is Wrote),
    ensures
        puts_in(seq![d]) == Seq::<Put>::empty(),
{
    assert(seq![d].drop_last() == Seq::<Deed>::empty());
    assert(puts_in(Seq::<Deed>::empty()) == Seq::<Put>::empty());
}

proof fn lemma_puts_of_stop(pair: Monitor, limit: Option<Duration>, x: Exchange)
    ensures
        puts_in(stop_deeds(pair, limit, x)) == stop_puts(x),
{
    let all = stop_deeds(pair, limit, x);
    let d1 = seq![all[0]];
    let d2 = d1.push(all[1]);
    let d3 = d2.push(all[2]);
    let d4 = d3.push(all[3]);
    lemma_puts_of_first(all[0]);
    lemma_puts_pushed(d1, all[1]);
    lemma_puts_pushed(d2, all[2]);
    lemma_puts_pushed(d3, all[3]);
    lemma_puts_pushed(d4, all[4]);
    assert(all == d4.push(all[4]));
    assert(puts_in(all) == stop_puts(x));
}

proof fn lemma_puts_of_release(pair: Monitor, x: Exchange)
    ensures
        puts_in(release_deeds(pair, x)) == release_puts(x),
{
    let all = release_deeds(pair, x);
    let d1 = seq![all[0]];
    let d2 = d1.push(all[1]);
    let d3 = d2.push(all[2]);
    let d4 = d3.push(all[3]);
    lemma_puts_of_first(all[0]);
    lemma_puts_pushed(d1, all[1]);
    lemma_puts_pushed(d2, all[2]);
    lemma_puts_pushed(d3, all[3]);
    lemma_puts_pushed(d4, all[4]);
    assert(all == d4.push(all[4]));
    assert(puts_in(all) == release_puts(x));
}

proof fn lemma_puts_of_park(pair: Monitor, x: Exchange)
    ensures
        puts_in(park_deeds(pair, x)) == park_puts(x),
{
    let all = park_deeds(pair, x);
    let d1 = seq![all[0]];
    let d2 = d1.push(all[1]);
    let d3 = d2.push(all[2]);
    let d4 = d3.push(all[3]);
    let d5 = d4.push(all[4]);
    lemma_puts_of_first(all[0]);
    lemma_puts_pushed(d1, all[1]);
    lemma_puts_pushed(d2, all[2]);
    lemma_puts_pushed(d3, all[3]);
    lemma_puts_pushed(d4, all[4]);
    lemma_puts_pushed(d5, all[5]);
    assert(all == d5.push(all[5]));
    assert(puts_in(all) == park_puts(x));
}

proof fn lemma_puts_of_close(pair: Monitor, before: ParkState)
    ensures
        puts_in(close_deeds(pair, before)) == close_puts(before),
{
    let all = close_deeds(pair, before);
    let d1 = seq![all[0]];
    let d2 = d1.push(all[1]);
    let d3 = d2.push(all[2]);
    lemma_puts_of_first(all[0]);
    lemma_puts_pushed(d1, all[1]);
    lemma_puts_pushed(d2, all[2]);
    lemma_puts_pushed(d3, all[3]);
    assert(all == d3.push(all[3]));
    assert(puts_in(all) == close_puts(before));
}

proof fn lemma_puts_of_look(pair: Monitor, seen: ParkState)
    ensures
        puts_in(look_deeds(pair, seen)) == Seq::<Put>::empty(),
        puts_in(queue_deeds(pair)) == Seq::<Put>::empty(),
        puts_in(unqueue_deeds(pair)) == Seq::<Put>::empty(),
        puts_in(leave_deeds(pair)) == Seq::<Put>::empty(),
{
    let all = look_deeds(pair, seen);
    lemma_puts_of_first(all[0]);
    lemma_puts_pushed(seq![all[0]], all[1]);
    assert(all == seq![all[0]].push(all[1]));
    lemma_puts_of_first(queue_deeds(pair)[0]);
    lemma_puts_of_first(unqueue_deeds(pair)[0]);
    lemma_puts_of_first(leave_deeds(pair)[0]);
    assert(queue_deeds(pair) == seq![queue_deeds(pair)[0]]);
    assert(unqueue_deeds(pair) == seq![unqueue_deeds(pair)[0]]);
    assert(leave_deeds(pair) == seq![leave_deeds(pair)[0]]);
}

/// What a pen holds is what the record says: the changes of a request, of the end of a
/// guard, of a park and of a close are the writes in their records, each over the state
/// that was found or left before it.
pub proof fn lemma_puts_are_the_writes(
    pair: Monitor,
    limit: Option<Duration>,
    run: RequestRun,
    x: Exchange,
    before: ParkState,
)
    ensures
        puts_in(run.deeds(pair, limit)) == run.puts(),
        puts_in(stop_deeds(pair, limit, x)) == stop_puts(x),
        puts_in(release_deeds(pair, x)) == release_puts(x),
        puts_in(park_deeds(pair, x)) == park_puts(x),
        puts_in(close_deeds(pair, before)) == close_puts(before),
{
    lemma_puts_of_stop(pair, limit, x);
    lemma_puts_of_release(pair, x);
    lemma_puts_of_park(pair, x);
    lemma_puts_of_close(pair, before);
    lemma_puts_of_look(pair, run.first);
    lemma_puts_of_look(pair, run.second);
    lemma_puts_of_release(pair, run.reset);
    lemma_puts_of_stop(pair, limit, run.stop);
    let first = look_deeds(pair, run.first);
    let queued = queue_deeds(pair);
    let second = look_deeds(pair, run.second);
    let reset = if run.second.pending_request {
        release_deeds(pair, run.reset)
    } else {
        Seq::empty()
    };
    let stop = if run.first.closed {
        Seq::empty()
    } else {
        stop_deeds(pair, limit, run.stop)
    };
    lemma_puts_add(first, queued);
    lemma_puts_add(first + queued, second);
    lemma_puts_add(first + queued + second, reset);
    lemma_puts_add(first + queued + second + reset, stop);
    assert(puts_in(Seq::<Deed>::empty()) == Seq::<Put>::empty());
    assert(puts_in(run.deeds(pair, limit)) == run.puts());
}

/// Telling the children that are still open from the others is done child by child, in
/// their order: one that answered that it has closed is left out, any other is kept.
pub proof fn lemma_open_children_are_told_one_by_one<C>(
    a: Seq<C>,
    b: Seq<C>,
    told_a: Seq<Handshake>,
    told_b: Seq<Handshake>,
    child: C,
    told: Handshake,
)
    requires
        a.len() == told_a.len(),
        b.len() == told_b.len(),
    ensures
        open_children(a + b, told_a + told_b) == open_children(a, told_a) + open_children(
            b,
            told_b,
        ),
        open_children(seq![child], seq![told]) == if told == Handshake::Closed {
            Seq::empty()
        } else {
            seq![child]
        },
    decreases b.len(),
{
    assert(seq![child].drop_last() == Seq::<C>::empty());
    assert(open_children(seq![child].drop_last(), seq![told].drop_last()) == Seq::<C>::empty());
    assert(open_children(seq![child], seq![told]) == if told == Handshake::Closed {
        Seq::empty()
    } else {
        seq![child]
    });
    if b.len() == 0 {
        assert(a + b == a);
        assert(told_a + told_b == told_a);
        assert(open_children(a, told_a) + open_children(b, told_b) == open_children(a, told_a));
    } else {
        lemma_open_children_are_told_one_by_one(
            a,
            b.drop_last(),
            told_a,
            told_b.drop_last(),
            child,
            told,
        );
        assert((a + b).drop_last() == a + b.drop_last());
        assert((told_a + told_b).drop_last() == told_a + told_b.drop_last());
        assert(open_children(a + b, told_a + told_b) == open_children(a, told_a) + open_children(
            b,
            told_b,
        ));
    }
}

/// A park tells every child twice, and no more: each is stopped, and each that has not
/// closed is released. If none has closed, all are kept.
pub proof fn lemma_children_are_stopped_and_released(
    pair: Monitor,
    children: Seq<Arc<Monitor>>,
    told: Seq<Seq<Put>>,
    run: ParkRun,
)
    requires
        run.fits(children),
        told.len() == children.len(),
        forall|k: int| 0 <= k < run.stops.len() ==> (#[trigger] run.stops[k]).seen.parked,
    ensures
        run.kept(children) == children,
        run.kept_puts(told).len() == told.len(),
        forall|k: int|
            0 <= k < told.len() ==> #[trigger] run.kept_puts(told)[k] == told[k] + puts_in(
                stop_deeds(pair, None, run.stops[k]),
            ) + puts_in(release_deeds(pair, run.releases[k])),
{
    let outcomes = answers(run.stops);
    assert forall|k: int| 0 <= k < outcomes.len() implies #[trigger] outcomes[k]
        != Handshake::Closed by {
        assert(run.stops[k].seen.parked);
    }
    lemma_all_stay_open(children, outcomes);
    lemma_all_stay_open(run.stopped_puts(told), outcomes);
    assert forall|k: int| 0 <= k < told.len() implies #[trigger] run.kept_puts(told)[k] == told[k]
        + puts_in(stop_deeds(pair, None, run.stops[k])) + puts_in(
        release_deeds(pair, run.releases[k]),
    ) by {
        lemma_puts_of_stop(pair, None, run.stops[k]);
        lemma_puts_of_release(pair, run.releases[k]);
    }
}

proof fn lemma_all_stay_open<C>(children: Seq<C>, outcomes: Seq<Handshake>)
    requires
        children.len() == outcomes.len(),
        forall|k: int| 0 <= k < outcomes.len() ==> #[trigger] outcomes[k] != Handshake::Closed,
    ensures
        open_children(children, outcomes) == children,
    decreases children.len(),
{
    if children.len() > 0 {
        assert forall|k: int| 0 <= k < outcomes.drop_last().len() implies
            #[trigger] outcomes.drop_last()[k] != Handshake::Closed by {
            assert(outcomes.drop_last()[k] == outcomes[k]);
        }
        lemma_all_stay_open(children.drop_last(), outcomes.drop_last());
        assert(outcomes[outcomes.len() - 1] != Handshake::Closed);
        assert(children.drop_last().push(children.last()) == children);
    }
    assert(open_children(children, outcomes) == children);
}

/// What a stop, a release, a park and a close change, flag by flag. A stop raises the
/// request over what it finds, and its answer keeps it up only over a parked worker; a
/// release takes it down; neither touches the other flags. A park sets the flag for it
/// and takes it back; a close sets the flag for it; neither touches the request. Nothing
/// but a close closes.
pub proof fn lemma_puts_flag_by_flag(x: Exchange, before: ParkState)
    ensures
        stop_puts(x).len() == 2,
        stop_puts(x)[0].over == x.before,
        stop_puts(x)[0].left.pending_request,
        stop_puts(x)[0].left.parked == x.before.parked,
        stop_puts(x)[0].left.closed == x.before.closed,
        stop_puts(x)[1].over == x.seen,
        stop_puts(x)[1].left.pending_request == (x.seen.pending_request && x.seen.parked),
        stop_puts(x)[1].left.parked == x.seen.parked,
        stop_puts(x)[1].left.closed == x.seen.closed,
        release_puts(x).len() == 1,
        release_puts(x)[0].over == x.before,
        !release_puts(x)[0].left.pending_request,
        release_puts(x)[0].left.parked == x.before.parked,
        release_puts(x)[0].left.closed == x.before.closed,
        park_puts(x).len() == 2,
        park_puts(x)[0].over == x.before,
        park_puts(x)[0].left.parked,
        park_puts(x)[0].left.pending_request == x.before.pending_request,
        park_puts(x)[0].left.closed == x.before.closed,
        park_puts(x)[1].over == x.seen,
        !park_puts(x)[1].left.parked,
        park_puts(x)[1].left.pending_request == x.seen.pending_request,
        park_puts(x)[1].left.closed == x.seen.closed,
        close_puts(before).len() == 1,
        close_puts(before)[0].over == before,
        close_puts(before)[0].left.closed,
        close_puts(before)[0].left.parked == before.parked,
        close_puts(before)[0].left.pending_request == before.pending_request,
{
}

/// When a wait may end, for every state that it can end with: a worker that is stopped
/// without a limit is parked or gone, one that is released is not parked or gone, and a
/// worker leaves its parking place only when no request is up.
pub proof fn lemma_waits_flag_by_flag(x: Exchange, limit: Option<Duration>)
    ensures
        x.fits_stop(limit) && limit is None ==> x.seen.parked || x.seen.closed,
        x.fits_stop(limit) && (x.before.parked || x.before.closed) ==> x.seen.parked
            == x.before.parked && x.seen.closed == x.before.closed && x.seen.pending_request,
        x.fits_release() ==> !x.seen.parked || x.seen.closed,
        x.fits_park() ==> !x.seen.pending_request,
{
}

/// Every wait among some deeds is one without a limit, but for the wait for a park or
/// a close, which has this one.
pub open spec fn waits_at_most(deeds: Seq<Deed>, limit: Option<Duration>) -> bool {
    forall|i: int|
        0 <= i < deeds.len() ==> ((#[trigger] deeds[i]).act matches Act::Waited(wake, l, _) ==> if wake
            == Wake::Settled {
            l == limit
        } else {
            l is None
        })
}

proof fn lemma_limits_add(a: Seq<Deed>, b: Seq<Deed>, limit: Option<Duration>)
    requires
        waits_at_most(a, limit),
        waits_at_most(b, limit),
    ensures
        waits_at_most(a + b, limit),
{
    assert forall|i: int| 0 <= i < (a + b).len() implies ((#[trigger] (a + b)[i]).act matches
        Act::Waited(wake, l, _) ==> if wake == Wake::Settled {
        l == limit
    } else {
        l is None
    }) by {
        if i < a.len() {
            assert((a + b)[i] == a[i]);
        } else {
            assert((a + b)[i] == b[i - a.len()]);
        }
    }
}

proof fn lemma_limits_of_all(
    children: Seq<Arc<Monitor>>,
    stops: Seq<Exchange>,
    kept: Seq<Arc<Monitor>>,
    releases: Seq<Exchange>,
)
    ensures
        waits_at_most(stop_all_deeds(children, stops), None),
        waits_at_most(release_all_deeds(kept, releases), None),
    decreases children.len() + kept.len(),
{
    if children.len() > 0 {
        let rest = children.drop_last();
        lemma_limits_of_all(rest, stops.drop_last(), kept, releases);
        lemma_limits_add(
            stop_all_deeds(rest, stops.drop_last()),
            stop_deeds(pair_of(children.last()), None, stops.last()),
            None,
        );
    }
    if kept.len() > 0 {
        let rest = kept.drop_last();
        lemma_limits_of_all(children, stops, rest, releases.drop_last());
        lemma_limits_add(
            release_all_deeds(rest, releases.drop_last()),
            release_deeds(pair_of(kept.last()), releases.last()),
            None,
        );
    }
}

/// A request waits for a park or a close as long as it was told to, and never gives up
/// if it was told no limit; every other wait of a request, of a guard's end and of a park
/// is without a limit.
pub proof fn lemma_waits_have_their_limits(
    pair: Monitor,
    children: Seq<Arc<Monitor>>,
    limit: Option<Duration>,
    park: ParkRun,
    request: RequestRun,
    x: Exchange,
)
    ensures
        waits_at_most(park.deeds(pair, children), None),
        waits_at_most(request.deeds(pair, limit), limit),
        waits_at_most(release_deeds(pair, x), limit),
        !request.first.closed ==> exists|i: int|
            0 <= i < request.deeds(pair, limit).len() && (#[trigger] request.deeds(pair, limit)[i])
                == (Deed { pair, act: Act::Waited(Wake::Settled, limit, request.stop.seen) }),
{
    lemma_limits_of_all(children, park.stops, park.kept(children), park.releases);
    let stops = stop_all_deeds(children, park.stops);
    let releases = release_all_deeds(park.kept(children), park.releases);
    lemma_limits_add(stops, park_deeds(pair, park.park), None);
    lemma_limits_add(stops + park_deeds(pair, park.park), releases, None);
    lemma_limits_add(
        stops + park_deeds(pair, park.park) + releases,
        leave_deeds(pair),
        None,
    );
    let first = look_deeds(pair, request.first);
    let queued = queue_deeds(pair);
    let second = look_deeds(pair, request.second);
    let reset = if request.second.pending_request {
        release_deeds(pair, request.reset)
    } else {
        Seq::empty()
    };
    let stop = if request.first.closed {
        Seq::empty()
    } else {
        stop_deeds(pair, limit, request.stop)
    };
    lemma_limits_add(first, queued, limit);
    lemma_limits_add(first + queued, second, limit);
    lemma_limits_add(first + queued + second, reset, limit);
    lemma_limits_add(first + queued + second + reset, stop, limit);
    if !request.first.closed {
        let all = request.deeds(pair, limit);
        assert(all[all.len() - 3] == stop[2]);
    }
}

} // verus!
