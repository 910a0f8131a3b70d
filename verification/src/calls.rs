//! The calls on handles and requesters, and what holds of them together.
//!
//! The contracts of [`crate::checkpoint`] say what each call writes down in its
//! record. Here the calls are put together: each record is the work of a thread of
//! [`crate::threads`], and so the calls of all threads, in whatever order the locks
//! let them in, keep the promises of [`crate::quiesce`] and [`crate::guards`].

use crate::checkpoint::{CheckpointGuard, CheckpointRequester, Handle, Refusal};
use crate::deeds::{
    answers,
    close_deeds,
    leave_deeds,
    look_deeds,
    open_children,
    park_deeds,
    queue_deeds,
    release_all_deeds,
    lemma_puts_are_the_writes,
    lemma_puts_flag_by_flag,
    puts_in,
    release_deeds,
    stop_all_deeds,
    stop_deeds,
    stop_puts,
    unqueue_deeds,
    Exchange,
    ParkRun,
    RequestRun,
};
use crate::guards::{
    is_history,
    lemma_histories_stay_sound,
    lemma_next_guard_waits_for_the_last,
    lemma_no_request_gets_stuck,
    lemma_nothing_is_written_under_a_guard,
    lemma_one_guard_at_a_time,
    lemma_reads_follow_the_writes,
    lemma_world_stands_still_under_a_guard,
    Event,
    Site,
};
use crate::handshake::{Handshake, ParkState, Side, Wake};
use crate::monitor::{Act, Deed, Monitor};
use crate::quiesce::{
    apply,
    can_go_on,
    enabled,
    in_world,
    lemma_rest_is_inherited,
    stopper_after,
    Move,
    Stopper,
    Worker,
    World,
};
use crate::threads::{
    are_threads,
    event_of,
    events_of,
    is_interleaving,
    is_left,
    jobs_of,
    lemma_interleavings_are_histories,
    lemma_places_on_the_way,
    lemma_threads_stand_where_they_are,
    requester_goes,
    requester_next,
    requester_place,
    requester_walk,
    worker_goes,
    worker_next,
    worker_place,
    worker_walk,
    Entry,
    Job,
    RequesterPlace,
    Stretch,
    Thread,
    WorkerPlace,
};
use std::sync::Arc;
use std::time::Duration;
use vstd::prelude::*;

verus! {

/// The stretches of a record of deeds.
pub open spec fn stretches(deeds: Seq<Deed>) -> Seq<Stretch>
    decreases deeds.len(),
{
    if deeds.len() == 0 {
        Seq::empty()
    } else {
        let rest = stretches(deeds.drop_last());
        let pair = deeds.last().pair;
        match deeds.last().act {
            Act::Entered(state) | Act::Waited(_, _, state) => rest.push(
                Stretch { pair, found: state, left: state },
            ),
            Act::Wrote(state) => rest.drop_last().push(Stretch { left: state, ..rest.last() }),
            _ => rest,
        }
    }
}

/// A look at a pair that leads to a step, or to none.
pub open spec fn look_jobs<V>(
    pair: Monitor,
    link: int,
    seen: ParkState,
    step: Option<Move>,
) -> Seq<Job<V>> {
    seq![Job::Locked { link, stretch: Stretch { pair, found: seen, left: seen }, step }]
}

/// Stopping a worker: the request, and the answer to it.
pub open spec fn stop_jobs<V>(pair: Monitor, link: int, x: Exchange) -> Seq<Job<V>> {
    seq![
        Job::Locked {
            link,
            stretch: Stretch { pair, found: x.before, left: x.before.after_request() },
            step: Some(Move::Request(link)),
        },
        Job::Locked {
            link,
            stretch: Stretch { pair, found: x.seen, left: x.seen.after_answer() },
            step: Some(
                if x.seen.spec_is_settled() {
                    Move::Answer(link)
                } else {
                    Move::GiveUp
                },
            ),
        },
    ]
}

/// Releasing a worker: the release, and seeing it through.
pub open spec fn release_jobs<V>(pair: Monitor, link: int, x: Exchange) -> Seq<Job<V>> {
    seq![
        Job::Locked {
            link,
            stretch: Stretch { pair, found: x.before, left: x.before.after_release() },
            step: Some(Move::Release(link)),
        },
        Job::Locked {
            link,
            stretch: Stretch { pair, found: x.seen, left: x.seen },
            step: Some(Move::Released(link)),
        },
    ]
}

/// Parking, and leaving the parking place.
pub open spec fn park_jobs<V>(pair: Monitor, link: int, x: Exchange) -> Seq<Job<V>> {
    seq![
        Job::Locked {
            link,
            stretch: Stretch { pair, found: x.before, left: x.before.after_park() },
            step: Some(Move::Park(link)),
        },
        Job::Locked {
            link,
            stretch: Stretch { pair, found: x.seen, left: x.seen.after_unpark() },
            step: Some(Move::Unpark(link)),
        },
    ]
}

/// Closing.
pub open spec fn close_jobs<V>(pair: Monitor, link: int, before: ParkState) -> Seq<Job<V>> {
    seq![
        Job::Locked {
            link,
            stretch: Stretch { pair, found: before, left: before.after_close() },
            step: Some(Move::Close(link)),
        },
    ]
}

/// Stopping the children `kids`, one after the other.
pub open spec fn stop_all_jobs<V>(
    children: Seq<Arc<Monitor>>,
    kids: Seq<int>,
    stops: Seq<Exchange>,
) -> Seq<Job<V>>
    decreases children.len(),
{
    if children.len() == 0 {
        Seq::empty()
    } else {
        stop_all_jobs(children.drop_last(), kids.drop_last(), stops.drop_last()) + stop_jobs(
            *children.last(),
            kids.last(),
            stops.last(),
        )
    }
}

/// Releasing the children `kids`, one after the other.
pub open spec fn release_all_jobs<V>(
    children: Seq<Arc<Monitor>>,
    kids: Seq<int>,
    releases: Seq<Exchange>,
) -> Seq<Job<V>>
    decreases children.len(),
{
    if children.len() == 0 {
        Seq::empty()
    } else {
        release_all_jobs(children.drop_last(), kids.drop_last(), releases.drop_last())
            + release_jobs(*children.last(), kids.last(), releases.last())
    }
}

/// What a handle is used for, call by call.
pub enum Call<V> {
    /// A safepoint that finds no request.
    Pass { seen: ParkState },
    /// A look at whether a request is up.
    Peek { seen: ParkState },
    /// A safepoint that finds a request.
    Park { seen: ParkState, run: ParkRun },
    /// A fan-out: the pairs of the new children, and the numbers of their workers.
    Fanout { pairs: Seq<Arc<Monitor>>, links: Seq<int> },
    /// A write to the node.
    Write(V),
    /// The close.
    Close { before: ParkState },
}

/// The children that a handle has, and the numbers of their workers.
pub struct Kin {
    pub children: Seq<Arc<Monitor>>,
    pub kids: Seq<int>,
}

/// The children after a call.
pub open spec fn kin_after<V>(kin: Kin, call: Call<V>) -> Kin {
    match call {
        Call::Park { run, .. } => Kin {
            children: run.kept(kin.children),
            kids: open_children(kin.kids, answers(run.stops)),
        },
        Call::Fanout { pairs, links } => Kin {
            children: kin.children + pairs,
            kids: kin.kids + links,
        },
        _ => kin,
    }
}

/// The children after some calls on a fresh handle.
pub open spec fn kin_of<V>(calls: Seq<Call<V>>) -> Kin
    decreases calls.len(),
{
    if calls.len() == 0 {
        Kin { children: Seq::empty(), kids: Seq::empty() }
    } else {
        kin_after(kin_of(calls.drop_last()), calls.last())
    }
}

/// What a call finds is what such a call can find, and the children are numbered
/// apart.
pub open spec fn call_fits<V>(kin: Kin, call: Call<V>) -> bool {
    match call {
        Call::Pass { seen } => !seen.pending_request,
        Call::Park { seen, run } => seen.pending_request && run.fits(kin.children),
        Call::Fanout { pairs, links } => pairs.len() == links.len() && (kin.kids
            + links).no_duplicates(),
        _ => true,
    }
}

/// The record of a call.
pub open spec fn call_deeds<V>(pair: Monitor, kin: Kin, call: Call<V>) -> Seq<Deed> {
    match call {
        Call::Pass { seen } | Call::Peek { seen } => look_deeds(pair, seen),
        Call::Park { seen, run } => look_deeds(pair, seen) + run.deeds(pair, kin.children),
        Call::Close { before } => close_deeds(pair, before),
        _ => Seq::empty(),
    }
}

/// The jobs of a call of worker `i`.
pub open spec fn call_jobs<V>(i: int, pair: Monitor, kin: Kin, call: Call<V>) -> Seq<Job<V>> {
    match call {
        Call::Pass { seen } | Call::Peek { seen } => look_jobs(pair, i, seen, None),
        Call::Park { seen, run } => {
            let after = kin_after(kin, call);
            look_jobs(pair, i, seen, Some(Move::Notice(i))) + stop_all_jobs(
                kin.children,
                kin.kids,
                run.stops,
            ) + park_jobs(pair, i, run.park) + release_all_jobs(
                after.children,
                after.kids,
                run.releases,
            ) + seq![Job::Resume]
        },
        Call::Fanout { pairs, links } => links.map_values(|c: int| Job::<V>::Fork(c)),
        Call::Write(value) => seq![Job::Write(value)],
        Call::Close { before } => close_jobs(pair, i, before),
    }
}

/// The calls on a handle from the first on, nothing after the close.
pub open spec fn calls_fit<V>(calls: Seq<Call<V>>) -> bool
    decreases calls.len(),
{
    calls.len() > 0 ==> {
        let before = calls.drop_last();
        &&& calls_fit(before)
        &&& before.len() > 0 ==> !(before.last() is Close)
        &&& call_fits(kin_of(before), calls.last())
    }
}

/// The record of a handle.
pub open spec fn handle_deeds<V>(pair: Monitor, calls: Seq<Call<V>>) -> Seq<Deed>
    decreases calls.len(),
{
    if calls.len() == 0 {
        Seq::empty()
    } else {
        let before = calls.drop_last();
        handle_deeds(pair, before) + call_deeds(pair, kin_of(before), calls.last())
    }
}

/// The jobs of worker `i`.
pub open spec fn handle_jobs<V>(i: int, pair: Monitor, calls: Seq<Call<V>>) -> Seq<Job<V>>
    decreases calls.len(),
{
    if calls.len() == 0 {
        Seq::empty()
    } else {
        let before = calls.drop_last();
        handle_jobs(i, pair, before) + call_jobs(i, pair, kin_of(before), calls.last())
    }
}

/// How a guard ends.
pub enum End {
    /// It lets the world go on.
    Resumed(Exchange),
    /// It is dropped without that.
    Dropped,
}

/// A request, and the end of its guard if it is granted.
pub struct Visit {
    pub limit: Option<Duration>,
    pub run: RequestRun,
    pub end: End,
}

impl Visit {
    /// What a visit finds is what it can find.
    pub open spec fn fits(self) -> bool {
        &&& self.run.fits(self.limit)
        &&& self.end matches End::Resumed(x) ==> x.fits_release()
    }

    /// The record of the end of a guard, or of a refusal.
    pub open spec fn end_deeds(self, pair: Monitor) -> Seq<Deed> {
        if self.run.decisive().spec_is_settled() {
            match self.end {
                End::Resumed(x) => release_deeds(pair, x) + unqueue_deeds(pair),
                End::Dropped => Seq::empty(),
            }
        } else {
            unqueue_deeds(pair)
        }
    }

    /// The record of a visit.
    pub open spec fn deeds(self, pair: Monitor) -> Seq<Deed> {
        self.run.deeds(pair, self.limit) + self.end_deeds(pair)
    }

    /// The jobs of the request.
    pub open spec fn request_jobs<V>(self, pair: Monitor) -> Seq<Job<V>> {
        look_jobs(pair, 0, self.run.first, None) + seq![Job::Enter] + look_jobs(
            pair,
            0,
            self.run.second,
            None,
        ) + (if self.run.second.pending_request {
            release_jobs(pair, 0, self.run.reset)
        } else {
            Seq::empty()
        }) + (if self.run.first.closed {
            seq![Job::Claim]
        } else {
            stop_jobs(pair, 0, self.run.stop)
        })
    }

    /// The jobs of the end of a guard, or of a refusal.
    pub open spec fn end_jobs<V>(self, pair: Monitor) -> Seq<Job<V>> {
        if self.run.decisive().spec_is_settled() {
            match self.end {
                End::Resumed(x) => release_jobs(pair, 0, x) + seq![Job::Leave],
                End::Dropped => seq![Job::Abandon],
            }
        } else {
            seq![Job::Leave]
        }
    }

    /// The jobs of a visit.
    pub open spec fn jobs<V>(self, pair: Monitor) -> Seq<Job<V>> {
        self.request_jobs(pair) + self.end_jobs(pair)
    }
}

/// The record of a requester's visits.
pub open spec fn visits_deeds(pair: Monitor, visits: Seq<Visit>) -> Seq<Deed>
    decreases visits.len(),
{
    if visits.len() == 0 {
        Seq::empty()
    } else {
        visits_deeds(pair, visits.drop_last()) + visits.last().deeds(pair)
    }
}

/// The jobs of a requester's visits.
pub open spec fn visits_jobs<V>(pair: Monitor, visits: Seq<Visit>) -> Seq<Job<V>>
    decreases visits.len(),
{
    if visits.len() == 0 {
        Seq::empty()
    } else {
        visits_jobs(pair, visits.drop_last()) + visits.last().jobs(pair)
    }
}

/// All visits fit.
pub open spec fn visits_fit(visits: Seq<Visit>) -> bool {
    forall|k: int| 0 <= k < visits.len() ==> (#[trigger] visits[k]).fits()
}

proof fn lemma_worker_goes_on<V>(i: int, place: WorkerPlace, a: Seq<Job<V>>, b: Seq<Job<V>>)
    ensures
        worker_goes(i, place, a + b) == match worker_goes(i, place, a) {
            Some(there) => worker_goes(i, there, b),
            None => None,
        },
    decreases b.len(),
{
    if b.len() == 0 {
        assert(a + b == a);
    } else {
        lemma_worker_goes_on(i, place, a, b.drop_last());
        assert((a + b).drop_last() == a + b.drop_last());
    }
}

proof fn lemma_requester_goes_on<V>(place: RequesterPlace, a: Seq<Job<V>>, b: Seq<Job<V>>)
    ensures
        requester_goes(place, a + b) == match requester_goes(place, a) {
            Some(there) => requester_goes(there, b),
            None => None,
        },
    decreases b.len(),
{
    if b.len() == 0 {
        assert(a + b == a);
    } else {
        lemma_requester_goes_on(place, a, b.drop_last());
        assert((a + b).drop_last() == a + b.drop_last());
    }
}

proof fn lemma_worker_does<V>(i: int, place: WorkerPlace, job: Job<V>)
    ensures
        worker_goes(i, place, seq![job]) == worker_next(i, place, job),
{
    assert(seq![job].drop_last() == Seq::<Job<V>>::empty());
    assert(worker_goes(i, place, Seq::<Job<V>>::empty()) == Some(place));
}

proof fn lemma_worker_does_two<V>(i: int, place: WorkerPlace, a: Job<V>, b: Job<V>)
    ensures
        worker_goes(i, place, seq![a, b]) == match worker_next(i, place, a) {
            Some(there) => worker_next(i, there, b),
            None => None,
        },
{
    lemma_worker_does(i, place, a);
    assert(seq![a, b].drop_last() == seq![a]);
}

proof fn lemma_requester_does<V>(place: RequesterPlace, job: Job<V>)
    ensures
        requester_goes(place, seq![job]) == requester_next(place, job),
{
    assert(seq![job].drop_last() == Seq::<Job<V>>::empty());
    assert(requester_goes(place, Seq::<Job<V>>::empty()) == Some(place));
}

proof fn lemma_requester_does_two<V>(place: RequesterPlace, a: Job<V>, b: Job<V>)
    ensures
        requester_goes(place, seq![a, b]) == match requester_next(place, a) {
            Some(there) => requester_next(there, b),
            None => None,
        },
{
    lemma_requester_does(place, a);
    assert(seq![a, b].drop_last() == seq![a]);
}

proof fn lemma_open_kids(kids: Seq<int>, outcomes: Seq<Handshake>)
    requires
        kids.len() == outcomes.len(),
        kids.no_duplicates(),
    ensures
        open_children(kids, outcomes).no_duplicates(),
        forall|j: int|
            0 <= j < kids.len() ==> (open_children(kids, outcomes).contains(#[trigger] kids[j])
                <==> outcomes[j] != Handshake::Closed),
        forall|k: int|
            0 <= k < open_children(kids, outcomes).len() ==> kids.contains(
                #[trigger] open_children(kids, outcomes)[k],
            ),
    decreases kids.len(),
{
    let open = open_children(kids, outcomes);
    if kids.len() > 0 {
        let n = kids.len() - 1;
        let fewer = kids.drop_last();
        let rest = open_children(fewer, outcomes.drop_last());
        lemma_open_kids(fewer, outcomes.drop_last());
        assert forall|k: int| 0 <= k < rest.len() implies (#[trigger] rest[k]) != kids[n] by {
            assert(fewer.contains(rest[k]));
            let j = choose|j: int| 0 <= j < fewer.len() && fewer[j] == rest[k];
            assert(kids[j] == rest[k]);
        }
        assert forall|j: int| 0 <= j < kids.len() implies (open.contains(#[trigger] kids[j])
            <==> outcomes[j] != Handshake::Closed) by {
            if j < n {
                assert(fewer[j] == kids[j]);
                if rest.contains(kids[j]) {
                    let k = choose|k: int| 0 <= k < rest.len() && rest[k] == kids[j];
                    assert(open[k] == kids[j]);
                }
                if open.contains(kids[j]) {
                    let k = choose|k: int| 0 <= k < open.len() && open[k] == kids[j];
                    assert(k < rest.len());
                    assert(rest[k] == kids[j]);
                }
            } else if outcomes[n] != Handshake::Closed {
                assert(open[open.len() - 1] == kids[n]);
            }
        }
        assert forall|k: int| 0 <= k < open.len() implies kids.contains(#[trigger] open[k]) by {
            if k < rest.len() {
                assert(fewer.contains(rest[k]));
                let j = choose|j: int| 0 <= j < fewer.len() && fewer[j] == rest[k];
                assert(kids[j] == open[k]);
            } else {
                assert(open[k] == kids[n]);
            }
        }
    }
}

proof fn lemma_same_many_open(children: Seq<Arc<Monitor>>, kids: Seq<int>, outcomes: Seq<Handshake>)
    requires
        children.len() == kids.len(),
    ensures
        open_children(children, outcomes).len() == open_children(kids, outcomes).len(),
    decreases children.len(),
{
    if children.len() > 0 {
        lemma_same_many_open(children.drop_last(), kids.drop_last(), outcomes.drop_last());
    }
}

/// In user code, with these children to be stopped, each of them idle; all others were
/// found closed.
pub open spec fn is_home(place: WorkerPlace, kids: Seq<int>) -> bool {
    &&& place.worker is Running
    &&& kids.no_duplicates()
    &&& forall|j: int|
        0 <= j < kids.len() ==> place.kids.dom().contains(#[trigger] kids[j])
            && place.kids[kids[j]] is Idle
    &&& forall|c: int| #[trigger]
        place.kids.dom().contains(c) && !kids.contains(c) ==> place.kids[c] is HoldsClosed
}

proof fn lemma_stopping_all<V>(
    i: int,
    place: WorkerPlace,
    children: Seq<Arc<Monitor>>,
    kids: Seq<int>,
    stops: Seq<Exchange>,
) -> (there: WorkerPlace)
    requires
        children.len() == kids.len(),
        stops.len() == kids.len(),
        kids.no_duplicates(),
        place.worker is Stopping,
        forall|j: int|
            0 <= j < kids.len() ==> place.kids.dom().contains(#[trigger] kids[j])
                && place.kids[kids[j]] is Idle,
        forall|j: int| 0 <= j < stops.len() ==> (#[trigger] stops[j]).fits_stop(None),
    ensures
        worker_goes(i, place, stop_all_jobs::<V>(children, kids, stops)) == Some(there),
        there.worker is Stopping,
        there.kids.dom() == place.kids.dom(),
        forall|j: int|
            0 <= j < kids.len() ==> there.kids[#[trigger] kids[j]] == stopper_after(
                stops[j].seen.outcome(),
            ),
        forall|c: int| !kids.contains(c) ==> #[trigger] there.kids[c] == place.kids[c],
    decreases kids.len(),
{
    if kids.len() == 0 {
        place
    } else {
        let n = kids.len() - 1;
        let fewer = kids.drop_last();
        let pair = pair_of(children.last());
        let x = stops.last();
        let c = kids.last();
        assert forall|j: int| 0 <= j < fewer.len() implies place.kids.dom().contains(
            #[trigger] fewer[j],
        ) && place.kids[fewer[j]] is Idle by {
            assert(fewer[j] == kids[j]);
        }
        assert forall|j: int| 0 <= j < n implies (#[trigger] stops.drop_last()[j]).fits_stop(
            None,
        ) by {
            assert(stops[j].fits_stop(None));
        }
        let middle = lemma_stopping_all::<V>(
            i,
            place,
            children.drop_last(),
            fewer,
            stops.drop_last(),
        );
        assert(stops[n].fits_stop(None));
        assert(!fewer.contains(c)) by {
            if fewer.contains(c) {
                let j = choose|j: int| 0 <= j < fewer.len() && fewer[j] == c;
                assert(kids[j] == kids[n]);
            }
        }
        assert(kids[n] == c);
        assert(middle.kids[c] == place.kids[c]);
        let there = WorkerPlace {
            kids: middle.kids.insert(c, Stopper::Waiting).insert(
                c,
                stopper_after(x.seen.outcome()),
            ),
            ..middle
        };
        let jobs = stop_jobs::<V>(pair, c, x);
        lemma_worker_does_two(i, middle, jobs[0], jobs[1]);
        assert(seq![jobs[0], jobs[1]] == jobs);
        let first = stop_all_jobs::<V>(children.drop_last(), fewer, stops.drop_last());
        lemma_worker_goes_on(i, place, first, jobs);
        assert(stop_all_jobs::<V>(children, kids, stops) == first + jobs);
        assert(there.kids.dom() == place.kids.dom());
        assert forall|j: int| 0 <= j < kids.len() implies there.kids[#[trigger] kids[j]]
            == stopper_after(stops[j].seen.outcome()) by {
            if j < n {
                assert(fewer[j] == kids[j]);
                assert(fewer.contains(fewer[j]));
            }
        }
        assert forall|d: int| !kids.contains(d) implies #[trigger] there.kids[d] == place.kids[d] by {
            assert(kids.contains(c));
            if fewer.contains(d) {
                let j = choose|j: int| 0 <= j < fewer.len() && fewer[j] == d;
                assert(kids[j] == d);
            }
            assert(middle.kids[d] == place.kids[d]);
        }
        there
    }
}

proof fn lemma_releasing_all<V>(
    i: int,
    place: WorkerPlace,
    children: Seq<Arc<Monitor>>,
    kids: Seq<int>,
    releases: Seq<Exchange>,
) -> (there: WorkerPlace)
    requires
        children.len() == kids.len(),
        releases.len() == kids.len(),
        kids.no_duplicates(),
        place.worker is Resuming,
        forall|j: int|
            0 <= j < kids.len() ==> place.kids.dom().contains(#[trigger] kids[j])
                && place.kids[kids[j]] is HoldsParked,
        forall|j: int| 0 <= j < releases.len() ==> (#[trigger] releases[j]).fits_release(),
    ensures
        worker_goes(i, place, release_all_jobs::<V>(children, kids, releases)) == Some(there),
        there.worker is Resuming,
        there.kids.dom() == place.kids.dom(),
        forall|j: int| 0 <= j < kids.len() ==> there.kids[#[trigger] kids[j]] is Idle,
        forall|c: int| !kids.contains(c) ==> #[trigger] there.kids[c] == place.kids[c],
    decreases kids.len(),
{
    if kids.len() == 0 {
        place
    } else {
        let n = kids.len() - 1;
        let fewer = kids.drop_last();
        let pair = pair_of(children.last());
        let x = releases.last();
        let c = kids.last();
        assert forall|j: int| 0 <= j < fewer.len() implies place.kids.dom().contains(
            #[trigger] fewer[j],
        ) && place.kids[fewer[j]] is HoldsParked by {
            assert(fewer[j] == kids[j]);
        }
        assert forall|j: int| 0 <= j < n implies (
        #[trigger] releases.drop_last()[j]).fits_release() by {
            assert(releases[j].fits_release());
        }
        let middle = lemma_releasing_all::<V>(
            i,
            place,
            children.drop_last(),
            fewer,
            releases.drop_last(),
        );
        assert(releases[n].fits_release());
        assert(!fewer.contains(c)) by {
            if fewer.contains(c) {
                let j = choose|j: int| 0 <= j < fewer.len() && fewer[j] == c;
                assert(kids[j] == kids[n]);
            }
        }
        assert(kids[n] == c);
        assert(middle.kids[c] == place.kids[c]);
        let there = WorkerPlace {
            kids: middle.kids.insert(c, Stopper::Releasing).insert(c, Stopper::Idle),
            ..middle
        };
        let jobs = release_jobs::<V>(pair, c, x);
        lemma_worker_does_two(i, middle, jobs[0], jobs[1]);
        assert(seq![jobs[0], jobs[1]] == jobs);
        let first = release_all_jobs::<V>(children.drop_last(), fewer, releases.drop_last());
        lemma_worker_goes_on(i, place, first, jobs);
        assert(release_all_jobs::<V>(children, kids, releases) == first + jobs);
        assert(there.kids.dom() == place.kids.dom());
        assert forall|j: int| 0 <= j < kids.len() implies there.kids[#[trigger] kids[j]] is Idle by {
            if j < n {
                assert(fewer[j] == kids[j]);
                assert(fewer.contains(fewer[j]));
            }
        }
        assert forall|d: int| !kids.contains(d) implies #[trigger] there.kids[d] == place.kids[d] by {
            assert(kids.contains(c));
            if fewer.contains(d) {
                let j = choose|j: int| 0 <= j < fewer.len() && fewer[j] == d;
                assert(kids[j] == d);
            }
            assert(middle.kids[d] == place.kids[d]);
        }
        there
    }
}

spec fn pair_of(child: Arc<Monitor>) -> Monitor {
    *child
}

proof fn lemma_park_is_jobs<V>(
    i: int,
    pair: Monitor,
    place: WorkerPlace,
    kin: Kin,
    seen: ParkState,
    run: ParkRun,
) -> (there: WorkerPlace)
    requires
        is_home(place, kin.kids),
        kin.children.len() == kin.kids.len(),
        seen.pending_request,
        run.fits(kin.children),
    ensures
        worker_goes(i, place, call_jobs(i, pair, kin, Call::<V>::Park { seen, run })) == Some(
            there,
        ),
        is_home(there, kin_after(kin, Call::<V>::Park { seen, run }).kids),
        kin_after(kin, Call::<V>::Park { seen, run }).children.len() == kin_after(
            kin,
            Call::<V>::Park { seen, run },
        ).kids.len(),
{
    let call = Call::<V>::Park { seen, run };
    let after = kin_after(kin, call);
    let outcomes = answers(run.stops);
    let kids = kin.kids;
    let look = look_jobs::<V>(pair, i, seen, Some(Move::Notice(i)));
    let stops = stop_all_jobs::<V>(kin.children, kids, run.stops);
    let park = park_jobs::<V>(pair, i, run.park);
    let releases = release_all_jobs::<V>(after.children, after.kids, run.releases);
    let resume = seq![Job::<V>::Resume];
    lemma_open_kids(kids, outcomes);
    lemma_same_many_open(kin.children, kids, outcomes);

    let p1 = WorkerPlace { worker: Worker::Stopping, ..place };
    lemma_worker_does(i, place, look[0]);
    assert(seq![look[0]] == look);
    let p2 = lemma_stopping_all::<V>(i, p1, kin.children, kids, run.stops);
    lemma_worker_goes_on(i, place, look, stops);

    assert forall|c: int| #[trigger] p2.kids.dom().contains(c) implies p2.kids[c].holds() by {
        if kids.contains(c) {
            let j = choose|j: int| 0 <= j < kids.len() && kids[j] == c;
            assert(p2.kids[kids[j]] == stopper_after(run.stops[j].seen.outcome()));
            assert(run.stops[j].fits_stop(None));
        } else {
            assert(place.kids.dom().contains(c));
            assert(p2.kids[c] == p1.kids[c]);
        }
    }
    let p3 = WorkerPlace { worker: Worker::Resuming, ..p2 };
    lemma_worker_does_two(i, p2, park[0], park[1]);
    assert(seq![park[0], park[1]] == park);
    lemma_worker_goes_on(i, place, look + stops, park);

    assert forall|k: int| 0 <= k < after.kids.len() implies p3.kids.dom().contains(
        #[trigger] after.kids[k],
    ) && p3.kids[after.kids[k]] is HoldsParked by {
        assert(kids.contains(after.kids[k]));
        let j = choose|j: int| 0 <= j < kids.len() && kids[j] == after.kids[k];
        assert(after.kids.contains(kids[j]));
        assert(place.kids.dom().contains(kids[j]));
        assert(outcomes[j] == run.stops[j].seen.outcome());
        assert(run.stops[j].fits_stop(None));
    }
    let p4 = lemma_releasing_all::<V>(i, p3, after.children, after.kids, run.releases);
    lemma_worker_goes_on(i, place, look + stops + park, releases);

    assert forall|c: int| #[trigger] p4.kids.dom().contains(c) && !after.kids.contains(c) implies
        p4.kids[c] is HoldsClosed by {
        assert(p4.kids[c] == p3.kids[c]);
        assert(place.kids.dom().contains(c));
        if kids.contains(c) {
            let j = choose|j: int| 0 <= j < kids.len() && kids[j] == c;
            assert(!after.kids.contains(kids[j]));
            assert(outcomes[j] == run.stops[j].seen.outcome());
            assert(p2.kids[kids[j]] == stopper_after(run.stops[j].seen.outcome()));
        } else {
            assert(p2.kids[c] == p1.kids[c]);
        }
    }
    assert forall|c: int| #[trigger] p4.kids.dom().contains(c) implies p4.kids[c] is Idle
        || p4.kids[c] is HoldsClosed by {
        if after.kids.contains(c) {
            let k = choose|k: int| 0 <= k < after.kids.len() && after.kids[k] == c;
            assert(p4.kids[after.kids[k]] is Idle);
        }
    }
    let there = WorkerPlace { worker: Worker::Running, ..p4 };
    lemma_worker_does(i, p4, Job::<V>::Resume);
    lemma_worker_goes_on(i, place, look + stops + park + releases, resume);
    assert forall|k: int| 0 <= k < after.kids.len() implies there.kids.dom().contains(
        #[trigger] after.kids[k],
    ) && there.kids[after.kids[k]] is Idle by {
        assert(p3.kids.dom().contains(after.kids[k]));
    }
    there
}

proof fn lemma_fanout_is_jobs<V>(i: int, place: WorkerPlace, kids: Seq<int>, links: Seq<int>) -> (there:
    WorkerPlace)
    requires
        is_home(place, kids),
        (kids + links).no_duplicates(),
    ensures
        worker_goes(i, place, links.map_values(|c: int| Job::<V>::Fork(c))) == Some(there),
        is_home(there, kids + links),
    decreases links.len(),
{
    let jobs = links.map_values(|c: int| Job::<V>::Fork(c));
    if links.len() == 0 {
        assert(kids + links == kids);
        place
    } else {
        let fewer = links.drop_last();
        let c = links.last();
        let more = kids + links;
        let less = kids + fewer;
        assert(more.drop_last() == less);
        assert forall|a: int, b: int| 0 <= a < less.len() && 0 <= b < less.len() && a != b implies
            less[a] != less[b] by {
            assert(less[a] == more[a]);
            assert(less[b] == more[b]);
        }
        let middle = lemma_fanout_is_jobs::<V>(i, place, kids, fewer);
        assert(jobs.drop_last() == fewer.map_values(|d: int| Job::<V>::Fork(d)));
        let there = WorkerPlace { kids: middle.kids.insert(c, Stopper::Idle), ..middle };
        assert forall|j: int| 0 <= j < more.len() implies there.kids.dom().contains(
            #[trigger] more[j],
        ) && there.kids[more[j]] is Idle by {
            if j < less.len() {
                assert(less[j] == more[j]);
            }
        }
        assert forall|d: int| #[trigger] there.kids.dom().contains(d) && !more.contains(d) implies
            there.kids[d] is HoldsClosed by {
            assert(more[more.len() - 1] == c);
            assert(d != c);
            assert(middle.kids.dom().contains(d));
            if less.contains(d) {
                let j = choose|j: int| 0 <= j < less.len() && less[j] == d;
                assert(more[j] == d);
            }
        }
        there
    }
}

/// The calls on a handle are the jobs of a worker.
pub proof fn lemma_calls_are_jobs<V>(i: int, pair: Monitor, calls: Seq<Call<V>>)
    requires
        calls_fit(calls),
    ensures
        worker_walk(i, handle_jobs(i, pair, calls)) is Some,
        calls.len() > 0 && calls.last() is Close || is_home(
            worker_walk(i, handle_jobs(i, pair, calls))->0,
            kin_of(calls).kids,
        ),
        kin_of(calls).children.len() == kin_of(calls).kids.len(),
    decreases calls.len(),
{
    if calls.len() > 0 {
        let before = calls.drop_last();
        lemma_calls_are_jobs(i, pair, before);
        let kin = kin_of(before);
        let place = worker_walk(i, handle_jobs(i, pair, before))->0;
        let jobs = call_jobs(i, pair, kin, calls.last());
        let fresh = WorkerPlace { worker: Worker::Running, kids: Map::empty() };
        lemma_worker_goes_on(i, fresh, handle_jobs(i, pair, before), jobs);
        match calls.last() {
            Call::Pass { seen } | Call::Peek { seen } => {
                lemma_worker_does(i, place, jobs[0]);
                assert(seq![jobs[0]] == jobs);
            },
            Call::Park { seen, run } => {
                let there = lemma_park_is_jobs::<V>(i, pair, place, kin, seen, run);
            },
            Call::Fanout { pairs, links } => {
                let there = lemma_fanout_is_jobs::<V>(i, place, kin.kids, links);
            },
            Call::Write(value) => {
                lemma_worker_does(i, place, Job::Write(value));
            },
            Call::Close { before: found } => {
                lemma_worker_does(i, place, jobs[0]);
                assert(seq![jobs[0]] == jobs);
            },
        }
    }
}

proof fn lemma_visit_is_jobs<V>(pair: Monitor, place: RequesterPlace, visit: Visit)
    requires
        visit.fits(),
        place is Outside,
    ensures
        requester_goes(place, visit.request_jobs::<V>(pair)) == Some(
            if visit.run.decisive().spec_is_settled() {
                RequesterPlace::Holding
            } else {
                RequesterPlace::Free(false)
            },
        ),
        requester_goes(place, visit.jobs::<V>(pair)) matches Some(there) && there is Outside,
{
    let run = visit.run;
    let closed = run.first.closed;
    let first = look_jobs::<V>(pair, 0, run.first, None);
    let enter = seq![Job::<V>::Enter];
    let second = look_jobs::<V>(pair, 0, run.second, None);
    let reset = if run.second.pending_request {
        release_jobs::<V>(pair, 0, run.reset)
    } else {
        Seq::empty()
    };
    let ask = if closed {
        seq![Job::<V>::Claim]
    } else {
        stop_jobs::<V>(pair, 0, run.stop)
    };
    let settled = run.decisive().spec_is_settled();
    let end = if settled {
        match visit.end {
            End::Resumed(x) => release_jobs::<V>(pair, 0, x) + seq![Job::<V>::Leave],
            End::Dropped => seq![Job::<V>::Abandon],
        }
    } else {
        seq![Job::<V>::Leave]
    };
    let p1 = RequesterPlace::Outside(closed);
    lemma_requester_does(place, first[0]);
    assert(seq![first[0]] == first);
    lemma_requester_goes_on(place, first, enter);
    lemma_requester_does(p1, Job::<V>::Enter);
    let p2 = RequesterPlace::Inside(closed);
    lemma_requester_goes_on(place, first + enter, second);
    lemma_requester_does(p2, second[0]);
    assert(seq![second[0]] == second);
    let p3 = if run.second.pending_request {
        RequesterPlace::FoundStop(closed)
    } else {
        RequesterPlace::Free(closed)
    };
    assert(requester_goes(place, first + enter + second) == Some(p3));
    lemma_requester_goes_on(place, first + enter + second, reset);
    let p4 = RequesterPlace::Free(closed);
    if run.second.pending_request {
        lemma_requester_does_two(p3, reset[0], reset[1]);
        assert(seq![reset[0], reset[1]] == reset);
    }
    assert(requester_goes(place, first + enter + second + reset) == Some(p4));
    lemma_requester_goes_on(place, first + enter + second + reset, ask);
    let p5 = if settled {
        RequesterPlace::Holding
    } else {
        RequesterPlace::Free(false)
    };
    if closed {
        lemma_requester_does(p4, Job::<V>::Claim);
    } else {
        lemma_requester_does_two(p4, ask[0], ask[1]);
        assert(seq![ask[0], ask[1]] == ask);
    }
    assert(requester_goes(place, first + enter + second + reset + ask) == Some(p5));
    lemma_requester_goes_on(place, first + enter + second + reset + ask, end);
    if settled {
        match visit.end {
            End::Resumed(x) => {
                let release = release_jobs::<V>(pair, 0, x);
                lemma_requester_does_two(p5, release[0], release[1]);
                assert(seq![release[0], release[1]] == release);
                lemma_requester_goes_on(p5, release, seq![Job::<V>::Leave]);
                lemma_requester_does(RequesterPlace::Free(false), Job::<V>::Leave);
            },
            End::Dropped => {
                lemma_requester_does(p5, Job::<V>::Abandon);
            },
        }
    } else {
        lemma_requester_does(p5, Job::<V>::Leave);
    }
}

/// The visits of a requester are the jobs of a requester. One that finds a stop that
/// nobody took back takes it back itself, and the pair is idle before it asks.
pub proof fn lemma_visits_are_jobs<V>(pair: Monitor, visits: Seq<Visit>)
    requires
        visits_fit(visits),
    ensures
        requester_walk(visits_jobs::<V>(pair, visits)) matches Some(there) && there is Outside,
    decreases visits.len(),
{
    if visits.len() > 0 {
        let before = visits.drop_last();
        assert forall|k: int| 0 <= k < before.len() implies (#[trigger] before[k]).fits() by {
            assert(visits[k].fits());
        }
        lemma_visits_are_jobs::<V>(pair, before);
        let place = requester_walk(visits_jobs::<V>(pair, before))->0;
        assert(visits[visits.len() - 1].fits());
        lemma_visit_is_jobs::<V>(pair, place, visits.last());
        lemma_requester_goes_on(
            RequesterPlace::Outside(false),
            visits_jobs::<V>(pair, before),
            visits.last().jobs::<V>(pair),
        );
    }
}

/// The stretches among some jobs.
pub open spec fn stretches_of<V>(jobs: Seq<Job<V>>) -> Seq<Stretch>
    decreases jobs.len(),
{
    if jobs.len() == 0 {
        Seq::empty()
    } else {
        let rest = stretches_of(jobs.drop_last());
        match jobs.last() {
            Job::Locked { stretch, .. } => rest.push(stretch),
            _ => rest,
        }
    }
}

proof fn lemma_stretches_of_add<V>(a: Seq<Job<V>>, b: Seq<Job<V>>)
    ensures
        stretches_of(a + b) == stretches_of(a) + stretches_of(b),
    decreases b.len(),
{
    if b.len() == 0 {
        assert(a + b == a);
    } else {
        assert((a + b).drop_last() == a + b.drop_last());
        lemma_stretches_of_add(a, b.drop_last());
    }
    assert(stretches_of(a + b) == stretches_of(a) + stretches_of(b));
}

/// A record that begins with taking a lock, or does not touch one at all.
spec fn starts_afresh(deeds: Seq<Deed>) -> bool {
    deeds.len() > 0 ==> deeds[0].act is Entered || deeds.len() == 1 && (deeds[0].act is Queued
        || deeds[0].act is Unqueued || deeds[0].act is Left)
}

proof fn lemma_stretches_add(a: Seq<Deed>, b: Seq<Deed>)
    requires
        starts_afresh(b),
    ensures
        stretches(a + b) == stretches(a) + stretches(b),
        b.len() > 0 && b[0].act is Entered ==> stretches(b).len() > 0,
    decreases b.len(),
{
    if b.len() == 0 {
        assert(a + b == a);
        assert(stretches(a) + stretches(b) == stretches(a));
    } else if b.len() == 1 {
        assert((a + b).drop_last() == a);
        assert(b.drop_last() == Seq::<Deed>::empty());
        assert(stretches(b.drop_last()) == Seq::<Stretch>::empty());
        assert(stretches(a + b) == stretches(a) + stretches(b));
    } else {
        assert((a + b).drop_last() == a + b.drop_last());
        assert(b.drop_last()[0] == b[0]);
        lemma_stretches_add(a, b.drop_last());
        assert(stretches(a + b) == stretches(a) + stretches(b));
    }
}

proof fn lemma_pushed(deeds: Seq<Deed>, d: Deed)
    ensures
        stretches(deeds.push(d)) == match d.act {
            Act::Entered(state) | Act::Waited(_, _, state) => stretches(deeds).push(
                Stretch { pair: d.pair, found: state, left: state },
            ),
            Act::Wrote(state) => stretches(deeds).drop_last().push(
                Stretch { left: state, ..stretches(deeds).last() },
            ),
            _ => stretches(deeds),
        },
{
    assert(deeds.push(d).drop_last() == deeds);
}

proof fn lemma_one_stretch<V>(job: Job<V>)
    ensures
        stretches_of(seq![job]) == match job {
            Job::Locked { stretch, .. } => seq![stretch],
            _ => Seq::empty(),
        },
{
    assert(seq![job].drop_last() == Seq::<Job<V>>::empty());
    assert(stretches_of(Seq::<Job<V>>::empty()) == Seq::<Stretch>::empty());
    assert(stretches_of(seq![job]) == match job {
        Job::Locked { stretch, .. } => seq![stretch],
        _ => Seq::empty(),
    });
}

proof fn lemma_two_stretches<V>(a: Job<V>, b: Job<V>)
    requires
        a is Locked,
        b is Locked,
    ensures
        stretches_of(seq![a, b]) == seq![a->stretch, b->stretch],
{
    lemma_one_stretch(a);
    assert(seq![a, b].drop_last() == seq![a]);
    assert(stretches_of(seq![a, b]) == seq![a->stretch, b->stretch]);
}

proof fn lemma_entered(pair: Monitor, seen: ParkState)
    ensures
        stretches(seq![Deed { pair, act: Act::Entered(seen) }]) == seq![
            Stretch { pair, found: seen, left: seen },
        ],
{
    let none = Seq::<Deed>::empty();
    let at = Deed { pair, act: Act::Entered(seen) };
    assert(stretches(none) == Seq::<Stretch>::empty());
    lemma_pushed(none, at);
    assert(none.push(at) == seq![at]);
    assert(stretches(seq![at]) == seq![Stretch { pair, found: seen, left: seen }]);
}

proof fn lemma_stretches_of_queueing(pair: Monitor)
    ensures
        stretches(queue_deeds(pair)) == Seq::<Stretch>::empty(),
        stretches(unqueue_deeds(pair)) == Seq::<Stretch>::empty(),
        stretches(leave_deeds(pair)) == Seq::<Stretch>::empty(),
{
    let none = Seq::<Deed>::empty();
    assert(stretches(none) == Seq::<Stretch>::empty());
    assert(queue_deeds(pair).drop_last() == none);
    assert(unqueue_deeds(pair).drop_last() == none);
    assert(leave_deeds(pair).drop_last() == none);
}

proof fn lemma_stretches_of_look<V>(
    pair: Monitor,
    link: int,
    seen: ParkState,
    step: Option<Move>,
)
    ensures
        stretches(look_deeds(pair, seen)) == stretches_of(look_jobs::<V>(pair, link, seen, step)),
{
    let looked = seq![Deed { pair, act: Act::Entered(seen) }];
    let left = Deed { pair, act: Act::Left };
    lemma_entered(pair, seen);
    lemma_pushed(looked, left);
    assert(look_deeds(pair, seen) == looked.push(left));
    let look = look_jobs::<V>(pair, link, seen, step);
    lemma_one_stretch(look[0]);
    assert(look == seq![look[0]]);
}

proof fn lemma_stretches_of_close<V>(pair: Monitor, link: int, seen: ParkState)
    ensures
        stretches(close_deeds(pair, seen)) == stretches_of(close_jobs::<V>(pair, link, seen)),
{
    let looked = seq![Deed { pair, act: Act::Entered(seen) }];
    let left = Deed { pair, act: Act::Left };
    let wrote = Deed { pair, act: Act::Wrote(seen.after_close()) };
    let woke = Deed { pair, act: Act::Woke(Side::Stopper) };
    lemma_entered(pair, seen);
    lemma_pushed(looked, wrote);
    lemma_pushed(looked.push(wrote), woke);
    lemma_pushed(looked.push(wrote).push(woke), left);
    assert(close_deeds(pair, seen) == looked.push(wrote).push(woke).push(left));
    let close = close_jobs::<V>(pair, link, seen);
    lemma_one_stretch(close[0]);
    assert(close == seq![close[0]]);
    assert(stretches(close_deeds(pair, seen)) == stretches_of(close));
}

proof fn lemma_stretches_of_stop<V>(
    pair: Monitor,
    link: int,
    limit: Option<Duration>,
    x: Exchange,
)
    ensures
        stretches(stop_deeds(pair, limit, x)) == stretches_of(stop_jobs::<V>(pair, link, x)),
{
    let entered = seq![Deed { pair, act: Act::Entered(x.before) }];
    let left = Deed { pair, act: Act::Left };
    let d1 = Deed { pair, act: Act::Wrote(x.before.after_request()) };
    let d2 = Deed { pair, act: Act::Waited(Wake::Settled, limit, x.seen) };
    let d3 = Deed { pair, act: Act::Wrote(x.seen.after_answer()) };
    lemma_entered(pair, x.before);
    lemma_pushed(entered, d1);
    lemma_pushed(entered.push(d1), d2);
    lemma_pushed(entered.push(d1).push(d2), d3);
    lemma_pushed(entered.push(d1).push(d2).push(d3), left);
    assert(stop_deeds(pair, limit, x) == entered.push(d1).push(d2).push(d3).push(left));
    let stop = stop_jobs::<V>(pair, link, x);
    lemma_two_stretches(stop[0], stop[1]);
    assert(stop == seq![stop[0], stop[1]]);
    assert(stretches(stop_deeds(pair, limit, x)) == stretches_of(stop));
}

proof fn lemma_stretches_of_release<V>(pair: Monitor, link: int, x: Exchange)
    ensures
        stretches(release_deeds(pair, x)) == stretches_of(release_jobs::<V>(pair, link, x)),
{
    let entered = seq![Deed { pair, act: Act::Entered(x.before) }];
    let left = Deed { pair, act: Act::Left };
    let d1 = Deed { pair, act: Act::Wrote(x.before.after_release()) };
    let d2 = Deed { pair, act: Act::Woke(Side::Worker) };
    let d3 = Deed { pair, act: Act::Waited(Wake::Resumed, None, x.seen) };
    lemma_entered(pair, x.before);
    lemma_pushed(entered, d1);
    lemma_pushed(entered.push(d1), d2);
    lemma_pushed(entered.push(d1).push(d2), d3);
    lemma_pushed(entered.push(d1).push(d2).push(d3), left);
    assert(release_deeds(pair, x) == entered.push(d1).push(d2).push(d3).push(left));
    let release = release_jobs::<V>(pair, link, x);
    lemma_two_stretches(release[0], release[1]);
    assert(release == seq![release[0], release[1]]);
    assert(stretches(release_deeds(pair, x)) == stretches_of(release));
}

proof fn lemma_stretches_of_park<V>(pair: Monitor, link: int, x: Exchange)
    ensures
        stretches(park_deeds(pair, x)) == stretches_of(park_jobs::<V>(pair, link, x)),
{
    let entered = seq![Deed { pair, act: Act::Entered(x.before) }];
    let d1 = Deed { pair, act: Act::Wrote(x.before.after_park()) };
    let d2 = Deed { pair, act: Act::Woke(Side::Stopper) };
    let d3 = Deed { pair, act: Act::Waited(Wake::Released, None, x.seen) };
    let d4 = Deed { pair, act: Act::Wrote(x.seen.after_unpark()) };
    lemma_entered(pair, x.before);
    lemma_pushed(entered, d1);
    lemma_pushed(entered.push(d1), d2);
    lemma_pushed(entered.push(d1).push(d2), d3);
    lemma_pushed(entered.push(d1).push(d2).push(d3), d4);
    lemma_pushed(entered.push(d1).push(d2).push(d3).push(d4), d2);
    assert(park_deeds(pair, x) == entered.push(d1).push(d2).push(d3).push(d4).push(d2));
    let park = park_jobs::<V>(pair, link, x);
    lemma_two_stretches(park[0], park[1]);
    assert(park == seq![park[0], park[1]]);
    assert(stretches(park_deeds(pair, x)) == stretches_of(park));
}

proof fn lemma_stretches_of_stopping_all<V>(
    children: Seq<Arc<Monitor>>,
    kids: Seq<int>,
    stops: Seq<Exchange>,
)
    ensures
        stretches(stop_all_deeds(children, stops)) == stretches_of(
            stop_all_jobs::<V>(children, kids, stops),
        ),
        starts_afresh(stop_all_deeds(children, stops)),
    decreases children.len(),
{
    if children.len() > 0 {
        let x = stops.last();
        let pair = pair_of(children.last());
        let rest = stop_all_deeds(children.drop_last(), stops.drop_last());
        lemma_stretches_of_stopping_all::<V>(
            children.drop_last(),
            kids.drop_last(),
            stops.drop_last(),
        );
        lemma_stretches_of_stop::<V>(pair, kids.last(), None, x);
        lemma_stretches_add(rest, stop_deeds(pair, None, x));
        lemma_stretches_of_add(
            stop_all_jobs::<V>(children.drop_last(), kids.drop_last(), stops.drop_last()),
            stop_jobs::<V>(pair, kids.last(), x),
        );
        if rest.len() > 0 {
            assert(stop_all_deeds(children, stops)[0] == rest[0]);
            if rest.len() == 1 {
                lemma_stop_all_is_long(children.drop_last(), stops.drop_last());
            }
        }
    }
    assert(stretches(stop_all_deeds(children, stops)) == stretches_of(
        stop_all_jobs::<V>(children, kids, stops),
    ));
}

proof fn lemma_stop_all_is_long(children: Seq<Arc<Monitor>>, stops: Seq<Exchange>)
    ensures
        children.len() > 0 ==> stop_all_deeds(children, stops).len() >= 5,
        children.len() == 0 ==> stop_all_deeds(children, stops).len() == 0,
{
}

proof fn lemma_release_all_is_long(children: Seq<Arc<Monitor>>, releases: Seq<Exchange>)
    ensures
        children.len() > 0 ==> release_all_deeds(children, releases).len() >= 5,
        children.len() == 0 ==> release_all_deeds(children, releases).len() == 0,
{
}

proof fn lemma_stretches_of_releasing_all<V>(
    children: Seq<Arc<Monitor>>,
    kids: Seq<int>,
    releases: Seq<Exchange>,
)
    ensures
        stretches(release_all_deeds(children, releases)) == stretches_of(
            release_all_jobs::<V>(children, kids, releases),
        ),
        starts_afresh(release_all_deeds(children, releases)),
    decreases children.len(),
{
    if children.len() > 0 {
        let x = releases.last();
        let pair = pair_of(children.last());
        let rest = release_all_deeds(children.drop_last(), releases.drop_last());
        lemma_stretches_of_releasing_all::<V>(
            children.drop_last(),
            kids.drop_last(),
            releases.drop_last(),
        );
        lemma_stretches_of_release::<V>(pair, kids.last(), x);
        lemma_stretches_add(rest, release_deeds(pair, x));
        lemma_stretches_of_add(
            release_all_jobs::<V>(children.drop_last(), kids.drop_last(), releases.drop_last()),
            release_jobs::<V>(pair, kids.last(), x),
        );
        if rest.len() > 0 {
            assert(release_all_deeds(children, releases)[0] == rest[0]);
            if rest.len() == 1 {
                lemma_release_all_is_long(children.drop_last(), releases.drop_last());
            }
        }
    }
    assert(stretches(release_all_deeds(children, releases)) == stretches_of(
        release_all_jobs::<V>(children, kids, releases),
    ));
}

proof fn lemma_no_stretch_in_forks<V>(links: Seq<int>)
    ensures
        stretches_of(links.map_values(|c: int| Job::<V>::Fork(c))) == Seq::<Stretch>::empty(),
    decreases links.len(),
{
    let jobs = links.map_values(|c: int| Job::<V>::Fork(c));
    if links.len() > 0 {
        lemma_no_stretch_in_forks::<V>(links.drop_last());
        assert(jobs.drop_last() == links.drop_last().map_values(|c: int| Job::<V>::Fork(c)));
    }
}

proof fn lemma_call_deeds_are_jobs<V>(i: int, pair: Monitor, kin: Kin, call: Call<V>)
    ensures
        stretches(call_deeds(pair, kin, call)) == stretches_of(call_jobs(i, pair, kin, call)),
        starts_afresh(call_deeds(pair, kin, call)),
{
    match call {
        Call::Pass { seen } | Call::Peek { seen } => {
            lemma_stretches_of_look::<V>(pair, i, seen, None);
        },
        Call::Park { seen, run } => {
            let after = kin_after(kin, call);
            let look = look_deeds(pair, seen);
            let stops = stop_all_deeds(kin.children, run.stops);
            let park = park_deeds(pair, run.park);
            let releases = release_all_deeds(after.children, run.releases);
            let leave = leave_deeds(pair);
            lemma_stretches_of_look::<V>(pair, i, seen, Some(Move::Notice(i)));
            lemma_stretches_of_park::<V>(pair, i, run.park);
            lemma_stretches_of_queueing(pair);
            lemma_stretches_of_stopping_all::<V>(kin.children, kin.kids, run.stops);
            lemma_stretches_of_releasing_all::<V>(after.children, after.kids, run.releases);
            lemma_stretches_add(look, stops);
            lemma_stretches_add(look + stops, park);
            lemma_stretches_add(look + stops + park, releases);
            lemma_stretches_add(look + stops + park + releases, leave);
            assert(look + run.deeds(pair, kin.children) == look + stops + park + releases + leave);
            let j1 = look_jobs::<V>(pair, i, seen, Some(Move::Notice(i)));
            let j2 = stop_all_jobs::<V>(kin.children, kin.kids, run.stops);
            let j3 = park_jobs::<V>(pair, i, run.park);
            let j4 = release_all_jobs::<V>(after.children, after.kids, run.releases);
            let j5 = seq![Job::<V>::Resume];
            lemma_stretches_of_add(j1, j2);
            lemma_stretches_of_add(j1 + j2, j3);
            lemma_stretches_of_add(j1 + j2 + j3, j4);
            lemma_stretches_of_add(j1 + j2 + j3 + j4, j5);
            lemma_one_stretch(Job::<V>::Resume);
            assert(call_jobs(i, pair, kin, call) == j1 + j2 + j3 + j4 + j5);
        },
        Call::Fanout { pairs, links } => {
            lemma_no_stretch_in_forks::<V>(links);
        },
        Call::Write(value) => {
            lemma_one_stretch(Job::Write(value));
        },
        Call::Close { before } => {
            lemma_stretches_of_close::<V>(pair, i, before);
        },
    }
    assert(stretches(call_deeds(pair, kin, call)) == stretches_of(call_jobs(i, pair, kin, call)));
}

/// The record of a handle is the work of its worker: no stretch is missing, and none is
/// made up.
pub proof fn lemma_handle_deeds_are_jobs<V>(i: int, pair: Monitor, calls: Seq<Call<V>>)
    ensures
        stretches(handle_deeds(pair, calls)) == stretches_of(handle_jobs(i, pair, calls)),
    decreases calls.len(),
{
    if calls.len() > 0 {
        let before = calls.drop_last();
        let kin = kin_of(before);
        lemma_handle_deeds_are_jobs(i, pair, before);
        lemma_call_deeds_are_jobs(i, pair, kin, calls.last());
        lemma_stretches_add(handle_deeds(pair, before), call_deeds(pair, kin, calls.last()));
        lemma_stretches_of_add(
            handle_jobs(i, pair, before),
            call_jobs(i, pair, kin, calls.last()),
        );
    }
}

proof fn lemma_request_deeds_are_jobs<V>(
    pair: Monitor,
    limit: Option<Duration>,
    visit: Visit,
    before: Seq<Deed>,
)
    requires
        limit == visit.limit,
    ensures
        stretches(before + visit.run.deeds(pair, limit)) == stretches(before) + stretches_of(
            visit.request_jobs::<V>(pair),
        ),
{
    let run = visit.run;
    let first = look_deeds(pair, run.first);
    let queued = queue_deeds(pair);
    let second = look_deeds(pair, run.second);
    let reset = if run.second.pending_request {
        release_deeds(pair, run.reset)
    } else {
        Seq::empty()
    };
    let ask = if run.first.closed {
        Seq::empty()
    } else {
        stop_deeds(pair, limit, run.stop)
    };
    let j1 = look_jobs::<V>(pair, 0, run.first, None);
    let j2 = seq![Job::<V>::Enter];
    let j3 = look_jobs::<V>(pair, 0, run.second, None);
    let j4 = if run.second.pending_request {
        release_jobs::<V>(pair, 0, run.reset)
    } else {
        Seq::empty()
    };
    let j5 = if run.first.closed {
        seq![Job::<V>::Claim]
    } else {
        stop_jobs::<V>(pair, 0, run.stop)
    };
    lemma_no_stretches::<V>();
    lemma_stretches_of_queueing(pair);
    lemma_stretches_of_look::<V>(pair, 0, run.first, None);
    lemma_stretches_of_look::<V>(pair, 0, run.second, None);
    lemma_stretches_of_release::<V>(pair, 0, run.reset);
    lemma_stretches_of_stop::<V>(pair, 0, limit, run.stop);
    assert(stretches(reset) == stretches_of(j4));
    assert(stretches(ask) == stretches_of(j5));
    let d1 = before + first;
    let d2 = d1 + queued;
    let d3 = d2 + second;
    let d4 = d3 + reset;
    let d5 = d4 + ask;
    lemma_stretches_add(before, first);
    lemma_stretches_add(d1, queued);
    lemma_stretches_add(d2, second);
    lemma_stretches_add(d3, reset);
    lemma_stretches_add(d4, ask);
    assert(before + run.deeds(pair, limit) == d5);
    lemma_stretches_of_add(j1, j2);
    lemma_stretches_of_add(j1 + j2, j3);
    lemma_stretches_of_add(j1 + j2 + j3, j4);
    lemma_stretches_of_add(j1 + j2 + j3 + j4, j5);
    assert(visit.request_jobs::<V>(pair) == j1 + j2 + j3 + j4 + j5);
    let s1 = stretches_of(j1);
    let s3 = stretches_of(j3);
    let s4 = stretches_of(j4);
    let s5 = stretches_of(j5);
    assert(stretches(d5) == stretches(before) + s1 + Seq::<Stretch>::empty() + s3 + s4 + s5);
    assert(stretches_of(visit.request_jobs::<V>(pair)) == s1 + Seq::<Stretch>::empty() + s3 + s4
        + s5);
    assert(stretches(before) + s1 + Seq::<Stretch>::empty() + s3 + s4 + s5 == stretches(before) + (
    s1 + Seq::<Stretch>::empty() + s3 + s4 + s5));
}

proof fn lemma_no_stretches<V>()
    ensures
        stretches(Seq::<Deed>::empty()) == Seq::<Stretch>::empty(),
        stretches_of(Seq::<Job<V>>::empty()) == Seq::<Stretch>::empty(),
        stretches_of(seq![Job::<V>::Enter]) == Seq::<Stretch>::empty(),
        stretches_of(seq![Job::<V>::Claim]) == Seq::<Stretch>::empty(),
        stretches_of(seq![Job::<V>::Leave]) == Seq::<Stretch>::empty(),
        stretches_of(seq![Job::<V>::Abandon]) == Seq::<Stretch>::empty(),
{
    lemma_one_stretch(Job::<V>::Enter);
    lemma_one_stretch(Job::<V>::Claim);
    lemma_one_stretch(Job::<V>::Leave);
    lemma_one_stretch(Job::<V>::Abandon);
}

proof fn lemma_end_deeds_are_jobs<V>(pair: Monitor, visit: Visit, before: Seq<Deed>)
    ensures
        stretches(before + visit.end_deeds(pair)) == stretches(before) + stretches_of(
            visit.end_jobs::<V>(pair),
        ),
{
    lemma_no_stretches::<V>();
    lemma_stretches_of_queueing(pair);
    if visit.run.decisive().spec_is_settled() {
        match visit.end {
            End::Resumed(x) => {
                let release = release_deeds(pair, x);
                let out = unqueue_deeds(pair);
                lemma_stretches_of_release::<V>(pair, 0, x);
                lemma_stretches_add(before, release);
                lemma_stretches_add(before + release, out);
                assert(before + (release + out) == before + release + out);
                lemma_stretches_of_add(release_jobs::<V>(pair, 0, x), seq![Job::<V>::Leave]);
                assert(stretches(before) + stretches(release) + Seq::<Stretch>::empty()
                    == stretches(before) + (stretches(release) + Seq::<Stretch>::empty()));
            },
            End::Dropped => {
                lemma_stretches_add(before, Seq::empty());
            },
        }
    } else {
        lemma_stretches_add(before, unqueue_deeds(pair));
    }
}

proof fn lemma_visit_deeds_are_jobs<V>(pair: Monitor, visit: Visit, before: Seq<Deed>)
    ensures
        stretches(before + visit.deeds(pair)) == stretches(before) + stretches_of(
            visit.jobs::<V>(pair),
        ),
{
    let asked = before + visit.run.deeds(pair, visit.limit);
    lemma_request_deeds_are_jobs::<V>(pair, visit.limit, visit, before);
    lemma_end_deeds_are_jobs::<V>(pair, visit, asked);
    assert(before + visit.deeds(pair) == asked + visit.end_deeds(pair));
    lemma_stretches_of_add(visit.request_jobs::<V>(pair), visit.end_jobs::<V>(pair));
    let a = stretches(before);
    let b = stretches_of(visit.request_jobs::<V>(pair));
    let c = stretches_of(visit.end_jobs::<V>(pair));
    assert(a + b + c == a + (b + c));
}

/// The record of a requester's visits is the work of a requester.
pub proof fn lemma_visits_deeds_are_jobs<V>(pair: Monitor, visits: Seq<Visit>)
    ensures
        stretches(visits_deeds(pair, visits)) == stretches_of(visits_jobs::<V>(pair, visits)),
    decreases visits.len(),
{
    if visits.len() > 0 {
        let before = visits.drop_last();
        lemma_visits_deeds_are_jobs::<V>(pair, before);
        lemma_visit_deeds_are_jobs::<V>(pair, visits.last(), visits_deeds(pair, before));
        lemma_stretches_of_add(
            visits_jobs::<V>(pair, before),
            visits.last().jobs::<V>(pair),
        );
    }
}

/// These jobs are the work of a handle of that pair, done up to some point.
pub open spec fn is_handle_work<V>(jobs: Seq<Job<V>>, i: int, pair: Monitor) -> bool {
    exists|calls: Seq<Call<V>>| #[trigger]
        calls_fit(calls) && jobs.is_prefix_of(handle_jobs(i, pair, calls))
}

/// These jobs are the work of a requester of that pair, done up to some point.
pub open spec fn is_requester_work<V>(jobs: Seq<Job<V>>, pair: Monitor) -> bool {
    exists|visits: Seq<Visit>| #[trigger]
        visits_fit(visits) && jobs.is_prefix_of(visits_jobs(pair, visits))
}

/// Handles and requesters at work: any number of them, each somewhere in its calls, in
/// any order in which the locks let them in.
pub open spec fn is_execution<V>(
    sites: Seq<Site<V>>,
    entries: Seq<Entry<V>>,
    pairs: spec_fn(int) -> Monitor,
) -> bool {
    &&& is_interleaving(sites, entries, pairs)
    &&& forall|i: int| #[trigger]
        is_handle_work(jobs_of(entries, Thread::Worker(i)), i, pairs(i))
    &&& forall|r: int|
        is_requester_work(#[trigger] jobs_of(entries, Thread::Requester(r)), pairs(0))
}

proof fn lemma_executions_are_threads<V>(
    sites: Seq<Site<V>>,
    entries: Seq<Entry<V>>,
    pairs: spec_fn(int) -> Monitor,
)
    requires
        is_execution(sites, entries, pairs),
    ensures
        are_threads(entries),
{
    assert forall|i: int| (#[trigger] worker_place(entries, i)) is Some by {
        let jobs = jobs_of(entries, Thread::Worker(i));
        assert(is_handle_work(jobs, i, pairs(i)));
        let calls = choose|calls: Seq<Call<V>>| #[trigger]
            calls_fit(calls) && jobs.is_prefix_of(handle_jobs(i, pairs(i), calls));
        let all = handle_jobs(i, pairs(i), calls);
        lemma_calls_are_jobs(i, pairs(i), calls);
        let fresh = WorkerPlace { worker: Worker::Running, kids: Map::empty() };
        lemma_worker_goes_on(i, fresh, jobs, all.skip(jobs.len() as int));
        assert(jobs + all.skip(jobs.len() as int) == all);
    }
    assert forall|r: int| (#[trigger] requester_place(entries, r)) is Some by {
        let jobs = jobs_of(entries, Thread::Requester(r));
        assert(is_requester_work(jobs, pairs(0)));
        let visits = choose|visits: Seq<Visit>| #[trigger]
            visits_fit(visits) && jobs.is_prefix_of(visits_jobs(pairs(0), visits));
        let all = visits_jobs::<V>(pairs(0), visits);
        lemma_visits_are_jobs::<V>(pairs(0), visits);
        lemma_requester_goes_on(
            RequesterPlace::Outside(false),
            jobs,
            all.skip(jobs.len() as int),
        );
        assert(jobs + all.skip(jobs.len() as int) == all);
    }
}

/// The calls of all threads together make a history of the tree: what is shown of
/// histories, and of the handshake in them, holds of the calls.
pub proof fn lemma_executions_are_histories<V>(
    sites: Seq<Site<V>>,
    entries: Seq<Entry<V>>,
    pairs: spec_fn(int) -> Monitor,
)
    requires
        is_execution(sites, entries, pairs),
    ensures
        is_history(sites, events_of(entries)),
        forall|k: int| 0 <= k < entries.len() ==> is_left(sites[k + 1], #[trigger] entries[k]),
{
    lemma_executions_are_threads(sites, entries, pairs);
    lemma_interleavings_are_histories(sites, entries, pairs);
}

/// Requester `r` has a guard after the first `k` jobs.
pub open spec fn has_guard<V>(entries: Seq<Entry<V>>, k: int, r: int) -> bool {
    requester_place(entries.take(k), r) == Some(RequesterPlace::Holding)
}

/// A requester has a guard when its request has returned one: when the deciding state
/// was one in which the handle is parked or gone.
pub proof fn lemma_granted_request_has_a_guard<V>(
    pair: Monitor,
    visits: Seq<Visit>,
    visit: Visit,
    entries: Seq<Entry<V>>,
    k: int,
    r: int,
)
    requires
        visits_fit(visits),
        visit.fits(),
        jobs_of(entries.take(k), Thread::Requester(r)) == visits_jobs::<V>(pair, visits)
            + visit.request_jobs::<V>(pair),
    ensures
        has_guard(entries, k, r) <==> visit.run.decisive().spec_is_settled(),
{
    lemma_visits_are_jobs::<V>(pair, visits);
    let place = requester_walk(visits_jobs::<V>(pair, visits))->0;
    lemma_visit_is_jobs::<V>(pair, place, visit);
    lemma_requester_goes_on(
        RequesterPlace::Outside(false),
        visits_jobs::<V>(pair, visits),
        visit.request_jobs::<V>(pair),
    );
}

proof fn lemma_guards_are_guards<V>(
    sites: Seq<Site<V>>,
    entries: Seq<Entry<V>>,
    pairs: spec_fn(int) -> Monitor,
    k: int,
    r: int,
)
    requires
        is_execution(sites, entries, pairs),
        0 <= k <= entries.len(),
        has_guard(entries, k, r),
    ensures
        sites[k].guards.contains(r),
{
    lemma_executions_are_threads(sites, entries, pairs);
    lemma_threads_stand_where_they_are(sites, entries, pairs, k, 0, r);
}

/// At most one requester of a pair has a guard at any time, however many ask.
pub proof fn lemma_calls_grant_one_guard_at_a_time<V>(
    sites: Seq<Site<V>>,
    entries: Seq<Entry<V>>,
    pairs: spec_fn(int) -> Monitor,
    k: int,
    a: int,
    b: int,
)
    requires
        is_execution(sites, entries, pairs),
        0 <= k <= entries.len(),
        has_guard(entries, k, a),
        has_guard(entries, k, b),
    ensures
        a == b,
{
    lemma_executions_are_histories(sites, entries, pairs);
    lemma_guards_are_guards(sites, entries, pairs, k, a);
    lemma_guards_are_guards(sites, entries, pairs, k, b);
    lemma_one_guard_at_a_time(sites, events_of(entries), k, a, b);
}

/// A second requester gets its guard only after the first one's is gone.
pub proof fn lemma_calls_grant_guards_in_turn<V>(
    sites: Seq<Site<V>>,
    entries: Seq<Entry<V>>,
    pairs: spec_fn(int) -> Monitor,
    k: int,
    l: int,
    a: int,
    b: int,
)
    requires
        is_execution(sites, entries, pairs),
        0 <= k < l <= entries.len(),
        has_guard(entries, k, a),
        has_guard(entries, l, b),
        a != b,
    ensures
        exists|left: int|
            k <= left < l && (#[trigger] entries[left]).thread == Thread::Requester(a) && (
            entries[left].job is Leave || entries[left].job is Abandon),
{
    let events = events_of(entries);
    lemma_executions_are_histories(sites, entries, pairs);
    lemma_guards_are_guards(sites, entries, pairs, k, a);
    lemma_guards_are_guards(sites, entries, pairs, l, b);
    lemma_next_guard_waits_for_the_last(sites, events, k, l, a, b);
    let left = choose|left: int|
        k <= left < l && (#[trigger] events[left] == Event::<V>::Abandon(a) || events[left]
            == Event::<V>::Leave(a));
    assert(events[left] == event_of(entries[left]));
    assert(entries[left].thread == Thread::Requester(a));
}

/// A guard finds the whole tree at rest: while a requester has one, every worker, at
/// whatever depth, is parked or has closed.
pub proof fn lemma_guard_finds_the_tree_at_rest<V>(
    sites: Seq<Site<V>>,
    entries: Seq<Entry<V>>,
    pairs: spec_fn(int) -> Monitor,
    k: int,
    r: int,
    i: int,
)
    requires
        is_execution(sites, entries, pairs),
        0 <= k <= entries.len(),
        has_guard(entries, k, r),
        in_world(sites[k].world, i),
    ensures
        worker_place(entries.take(k), i) matches Some(place) && place.worker.at_rest(),
{
    lemma_executions_are_histories(sites, entries, pairs);
    lemma_executions_are_threads(sites, entries, pairs);
    lemma_guards_are_guards(sites, entries, pairs, k, r);
    lemma_histories_stay_sound(sites, events_of(entries), k);
    assert(sites[k].world[0].consistent());
    lemma_rest_is_inherited(sites[k].world, i);
    lemma_threads_stand_where_they_are(sites, entries, pairs, k, i, r);
}

/// A guard reads the same at every call: while a requester has it, no handle writes to
/// its node. What it reads is what the workers left when they parked or closed.
pub proof fn lemma_guard_reads_one_state<V>(
    sites: Seq<Site<V>>,
    entries: Seq<Entry<V>>,
    pairs: spec_fn(int) -> Monitor,
    k: int,
    l: int,
    r: int,
)
    requires
        is_execution(sites, entries, pairs),
        0 <= k <= l <= entries.len(),
        forall|m: int| k <= m < l ==> #[trigger] has_guard(entries, m, r),
    ensures
        sites[l].writes == sites[k].writes,
{
    lemma_executions_are_histories(sites, entries, pairs);
    assert forall|m: int| k <= m < l implies (#[trigger] sites[m]).guards.contains(r) by {
        assert(has_guard(entries, m, r));
        lemma_guards_are_guards(sites, entries, pairs, m, r);
    }
    lemma_nothing_is_written_under_a_guard(sites, events_of(entries), k, l, r);
}

/// Over successive guards, of whichever requesters, the values of a node follow the
/// order in which its handle wrote them.
pub proof fn lemma_guards_read_in_order<V>(
    sites: Seq<Site<V>>,
    entries: Seq<Entry<V>>,
    pairs: spec_fn(int) -> Monitor,
    k: int,
    l: int,
    i: int,
)
    requires
        is_execution(sites, entries, pairs),
        0 <= k <= l <= entries.len(),
    ensures
        sites[k].written_by(i).is_prefix_of(sites[l].written_by(i)),
{
    lemma_executions_are_histories(sites, entries, pairs);
    lemma_reads_follow_the_writes(sites, events_of(entries), k, l, i);
}

/// No call gets stuck: a requester that waits for the queue gets it when it is free,
/// and the one that has it can go on, or some step of the handshake can be made.
pub proof fn lemma_no_call_gets_stuck<V>(
    sites: Seq<Site<V>>,
    entries: Seq<Entry<V>>,
    pairs: spec_fn(int) -> Monitor,
    k: int,
    r: int,
)
    requires
        is_execution(sites, entries, pairs),
        0 <= k <= entries.len(),
    ensures
        match sites[k].holder {
            None => sites[k].can(Event::Enter(r)),
            Some(q) => match sites[k].world[0].stopper {
                Stopper::Idle => sites[k].can(Event::Ask(q, Move::Request(0))) && sites[k].can(
                    Event::Leave(q),
                ),
                Stopper::Waiting | Stopper::Releasing => can_go_on(sites[k].world),
                Stopper::HoldsParked | Stopper::HoldsClosed => sites[k].can(
                    Event::Ask(q, Move::Release(0)),
                ),
            },
        },
{
    lemma_executions_are_histories(sites, entries, pairs);
    lemma_no_request_gets_stuck(sites, events_of(entries), k, r);
}

/// A safepoint is a call: what it writes down and which children it keeps is what the
/// call says, for every state that it finds.
pub proof fn lemma_safepoint_is_a_call<T, V>(
    before: Handle<T>,
    after: Handle<T>,
    seen: ParkState,
    run: ParkRun,
    kids: Seq<int>,
) -> (call: Call<V>)
    requires
        before.passes_safepoint(after, seen, run),
    ensures
        call_fits(Kin { children: before.children(), kids }, call),
        after.trace() == before.trace() + call_deeds(
            before.pair(),
            Kin { children: before.children(), kids },
            call,
        ),
        after.children() == kin_after(Kin { children: before.children(), kids }, call).children,
{
    if seen.pending_request {
        assert(after.trace() == before.trace() + (look_deeds(before.pair(), seen) + run.deeds(
            before.pair(),
            before.children(),
        )));
        Call::Park { seen, run }
    } else {
        Call::Pass { seen }
    }
}

/// A guard that is granted is that of a visit, and so is a refusal.
pub proof fn lemma_request_is_a_visit<T>(
    requester: CheckpointRequester<T>,
    limit: Option<Duration>,
    answer: Result<CheckpointGuard<'_, T>, Refusal>,
) -> (visit: Visit)
    requires
        match answer {
            Ok(guard) => guard.is_granted_by(requester, limit),
            Err(refusal) => refusal.is_answer_on(requester.pair(), limit),
        },
    ensures
        visit.fits(),
        visit.limit == limit,
        visit.run.decisive().spec_is_settled() == (answer is Ok),
        match answer {
            Ok(guard) => guard.trace() == visit.run.deeds(requester.pair(), limit),
            Err(refusal) => refusal.trace() == visit.deeds(requester.pair()),
        },
{
    let pair = requester.pair();
    let run = match answer {
        Ok(guard) => choose|run: RequestRun|
            guard.trace() == #[trigger] run.deeds(guard.pair(), limit) && run.fits(limit)
                && guard.granted() == run.decisive(),
        Err(refusal) => choose|run: RequestRun|
            refusal.trace() == #[trigger] run.deeds(pair, limit) + unqueue_deeds(pair) && run.fits(
                limit,
            ) && !run.decisive().spec_is_settled(),
    };
    Visit { limit, run, end: End::Dropped }
}

/// The world stands still while a guard is held: from the return of a granted request
/// to the end of its guard, the state of every pair of the tree stays as it was granted.
/// A handle that was parked is still parked, with the request up.
pub proof fn lemma_guard_keeps_the_world_stopped<V>(
    sites: Seq<Site<V>>,
    entries: Seq<Entry<V>>,
    pairs: spec_fn(int) -> Monitor,
    k: int,
    l: int,
    r: int,
    i: int,
)
    requires
        is_execution(sites, entries, pairs),
        0 <= k <= l <= entries.len(),
        forall|m: int| k <= m <= l ==> #[trigger] has_guard(entries, m, r),
        in_world(sites[k].world, i),
    ensures
        in_world(sites[l].world, i),
        sites[l].world[i].state == sites[k].world[i].state,
        sites[l].world[i].worker == sites[k].world[i].worker,
        sites[l].world[0].state.closed || (sites[l].world[0].state.parked
            && sites[l].world[0].state.pending_request),
{
    lemma_executions_are_histories(sites, entries, pairs);
    assert forall|m: int| k <= m <= l implies (#[trigger] sites[m]).guards.contains(r) by {
        assert(has_guard(entries, m, r));
        lemma_guards_are_guards(sites, entries, pairs, m, r);
    }
    lemma_world_stands_still_under_a_guard(sites, events_of(entries), k, l, r);
}

/// The job is worker `c`'s own close.
pub open spec fn is_close_of<V>(entry: Entry<V>, c: int) -> bool {
    entry.thread == Thread::Worker(c) && (entry.job matches Job::Locked { step, .. } && step
        == Some(Move::Close(c)))
}

proof fn lemma_step_that_closes(w: World, m: Move, c: int)
    requires
        enabled(w, m),
        in_world(apply(w, m), c),
        apply(w, m)[c].state.closed,
        m != Move::Close(c),
    ensures
        in_world(w, c),
        w[c].state.closed,
{
}

/// Only a worker's own close closes its pair: a pair that is found closed was closed by
/// its worker. A child that was fanned out and has not closed is not closed.
pub proof fn lemma_only_its_own_close_closes<V>(
    sites: Seq<Site<V>>,
    entries: Seq<Entry<V>>,
    pairs: spec_fn(int) -> Monitor,
    k: int,
    c: int,
)
    requires
        is_execution(sites, entries, pairs),
        0 <= k <= entries.len(),
        in_world(sites[k].world, c),
        sites[k].world[c].state.closed,
    ensures
        exists|j: int| 0 <= j < k && #[trigger] is_close_of(entries[j], c),
    decreases k,
{
    lemma_executions_are_histories(sites, entries, pairs);
    lemma_executions_are_threads(sites, entries, pairs);
    let events = events_of(entries);
    if k > 0 {
        let before = sites[k - 1];
        let entry = entries[k - 1];
        assert(before.can(events[k - 1]));
        assert(sites[(k - 1) + 1] == before.after(events[k - 1]));
        assert(events[k - 1] == event_of(entry));
        lemma_histories_stay_sound(sites, events, k - 1);
        if in_world(before.world, c) && before.world[c].state.closed {
            lemma_only_its_own_close_closes(sites, entries, pairs, k - 1, c);
            let j = choose|j: int| 0 <= j < k - 1 && #[trigger] is_close_of(entries[j], c);
            assert(is_close_of(entries[j], c));
        } else {
            match events[k - 1] {
                Event::Ask(_, m) | Event::Work(m) => {
                    if m != Move::Close(c) {
                        lemma_step_that_closes(before.world, m, c);
                    }
                },
                Event::Abandon(_) => {
                    if before.world[0].stopper is HoldsClosed {
                        lemma_step_that_closes(before.world, Move::LetGo, c);
                    }
                },
                _ => {},
            }
            assert(events[k - 1] == Event::<V>::Work(Move::Close(c)));
            match entry.thread {
                Thread::Worker(i) => {
                    lemma_places_on_the_way(entries, k, i, 0);
                    assert(entries.take(k).drop_last() == entries.take(k - 1));
                    assert(entries.take(k).last() == entry);
                    let jobs = jobs_of(entries.take(k), Thread::Worker(i));
                    assert(jobs.last() == entry.job);
                    assert(worker_walk(i, jobs) is Some);
                    assert(i == c);
                },
                _ => {},
            }
            assert(is_close_of(entries[k - 1], c));
        }
    }
}

/// A guard waits for every child: while it is held, every worker of the tree that has
/// not closed itself is parked.
pub proof fn lemma_guard_waits_for_every_open_child<V>(
    sites: Seq<Site<V>>,
    entries: Seq<Entry<V>>,
    pairs: spec_fn(int) -> Monitor,
    k: int,
    r: int,
    c: int,
)
    requires
        is_execution(sites, entries, pairs),
        0 <= k <= entries.len(),
        has_guard(entries, k, r),
        in_world(sites[k].world, c),
        forall|j: int| 0 <= j < k ==> !#[trigger] is_close_of(entries[j], c),
    ensures
        sites[k].world[c].state.parked,
        !sites[k].world[c].state.closed,
        worker_place(entries.take(k), c) matches Some(place) && place.worker is Parked,
{
    lemma_guard_finds_the_tree_at_rest(sites, entries, pairs, k, r, c);
    lemma_executions_are_histories(sites, entries, pairs);
    lemma_executions_are_threads(sites, entries, pairs);
    lemma_histories_stay_sound(sites, events_of(entries), k);
    lemma_threads_stand_where_they_are(sites, entries, pairs, k, c, r);
    assert(sites[k].world[c].consistent());
    if sites[k].world[c].state.closed {
        lemma_only_its_own_close_closes(sites, entries, pairs, k, c);
    }
}

/// A guard that is granted over a parked handle has left the request as the answer
/// leaves it: the last change of the pair from the side that stops the handle was made
/// over the state in which the guard was granted, and took nothing back. Every change
/// since the request took its place in the queue is a write in the guard's record.
pub proof fn lemma_guard_holds_the_stop<T>(
    guard: CheckpointGuard<'_, T>,
    requester: CheckpointRequester<T>,
    limit: Option<Duration>,
)
    requires
        guard.is_granted_by(requester, limit),
    ensures
        guard.puts() == puts_in(guard.trace()),
        !guard.granted().closed ==> {
            &&& guard.granted().parked
            &&& guard.puts().len() > 1
            &&& guard.puts()[guard.puts().len() - 2].left.pending_request
            &&& guard.puts().last().over == guard.granted()
            &&& guard.puts().last().left == guard.granted()
        },
{
    let run = choose|run: RequestRun|
        guard.trace() == #[trigger] run.deeds(guard.pair(), limit) && run.fits(limit)
            && guard.granted() == run.decisive() && guard.puts() == run.puts();
    lemma_puts_are_the_writes(guard.pair(), limit, run, run.stop, run.first);
    if !guard.granted().closed {
        let puts = stop_puts(run.stop);
        assert(guard.puts().last() == puts[1]);
        assert(guard.puts()[guard.puts().len() - 2] == puts[0]);
    }
}

/// A request that is refused has changed nothing of the pair but what its record says,
/// and the last change took its request down.
pub proof fn lemma_refusal_leaves_no_request(
    refusal: Refusal,
    pair: Monitor,
    limit: Option<Duration>,
)
    requires
        refusal.is_answer_on(pair, limit),
    ensures
        refusal.puts().len() > 0,
        !refusal.puts().last().left.pending_request,
        !refusal.puts().last().over.parked,
        !refusal.puts().last().over.closed,
        refusal.puts().last().left.parked == refusal.puts().last().over.parked,
        refusal.puts().last().left.closed == refusal.puts().last().over.closed,
{
    let run = choose|run: RequestRun|
        refusal.trace() == #[trigger] run.deeds(pair, limit) + unqueue_deeds(pair) && run.fits(
            limit,
        ) && !run.decisive().spec_is_settled() && refusal.puts() == run.puts();
    let puts = stop_puts(run.stop);
    assert(refusal.puts().last() == puts[1]);
}

/// What a safepoint changes. If no request was found, nothing. If one was, the handle
/// sets the flag that it is parked, and takes it back once no request is up; it never
/// closes itself, and it changes no request on its own pair.
pub proof fn lemma_safepoint_parks_and_nothing_else<T>(
    before: Handle<T>,
    after: Handle<T>,
    seen: ParkState,
    run: ParkRun,
)
    requires
        before.passes_safepoint(after, seen, run),
    ensures
        !seen.pending_request ==> after.puts() == before.puts() && after.children()
            == before.children() && after.child_puts() == before.child_puts(),
        seen.pending_request ==> {
            let n = before.puts().len() as int;
            &&& after.puts().len() == n + 2
            &&& after.puts().take(n) == before.puts()
            &&& after.puts()[n].left.parked
            &&& after.puts()[n].left.closed == after.puts()[n].over.closed
            &&& after.puts()[n].left.pending_request == after.puts()[n].over.pending_request
            &&& !after.puts()[n + 1].over.pending_request
            &&& !after.puts()[n + 1].left.parked
            &&& after.puts()[n + 1].left.closed == after.puts()[n + 1].over.closed
            &&& !after.puts()[n + 1].left.pending_request
        },
{
    lemma_puts_flag_by_flag(run.park, seen);
    assert(after.puts().take(before.puts().len() as int) == before.puts());
}

} // verus!
