//! What the threads of a tree do together.
//!
//! A thread works on a pair in stretches: from taking its lock to giving it back,
//! be that at the end or for a wait. In each stretch it finds one state and leaves
//! another, and nobody else comes in between. This module follows the threads of a
//! tree, workers and requesters, stretch by stretch, in any order in which the locks
//! let them in: that is a history of [`crate::guards`].

use crate::guards::{
    is_asked,
    is_history,
    lemma_event_keeps_sound,
    lemma_first_world_is_sound,
    lemma_work_leaves_the_requester,
    Event,
    Site,
};
use crate::handshake::ParkState;
use crate::monitor::Monitor;
use crate::quiesce::{
    apply,
    child_of,
    enabled,
    in_world,
    sound,
    start,
    stopper_after,
    Move,
    Stopper,
    Worker,
    World,
};
use vstd::prelude::*;

verus! {

/// What a thread did between taking the lock of a pair and giving it back.
pub struct Stretch {
    pub pair: Monitor,
    pub found: ParkState,
    pub left: ParkState,
}

/// What a thread does next. `V` is what nodes hold.
pub enum Job<V> {
    /// A stretch on the pair of worker `link`, and the step of the handshake that it
    /// is. A stretch without a step changes nothing.
    Locked { link: int, stretch: Stretch, step: Option<Move> },
    /// A worker goes back to user code.
    Resume,
    /// A worker fans out one more child, which gets this number.
    Fork(int),
    /// A worker writes to its node.
    Write(V),
    /// A requester takes the lock of the queue.
    Enter,
    /// A requester that has seen the handle closed gets its guard.
    Claim,
    /// A requester gives the lock of the queue back.
    Leave,
    /// A guard is dropped without having let the world go on.
    Abandon,
}

/// The threads around a tree.
pub enum Thread {
    Requester(int),
    Worker(int),
}

/// A job of a thread.
pub struct Entry<V> {
    pub thread: Thread,
    pub job: Job<V>,
}

/// What a job is to the tree.
pub open spec fn event_of<V>(entry: Entry<V>) -> Event<V> {
    match entry.thread {
        Thread::Worker(i) => match entry.job {
            Job::Locked { step: Some(m), .. } => Event::Work(m),
            Job::Resume => Event::Work(Move::Resume(i)),
            Job::Fork(_) => Event::Work(Move::Fork(i)),
            Job::Write(value) => Event::Write(i, value),
            _ => Event::Look,
        },
        Thread::Requester(r) => match entry.job {
            Job::Locked { step: Some(m), .. } => Event::Ask(r, m),
            Job::Enter => Event::Enter(r),
            Job::Claim => Event::Ask(r, Move::TakeClosed),
            Job::Leave => Event::Leave(r),
            Job::Abandon => Event::Abandon(r),
            _ => Event::Look,
        },
    }
}

/// The jobs of one thread, in order.
pub open spec fn jobs_of<V>(entries: Seq<Entry<V>>, thread: Thread) -> Seq<Job<V>>
    decreases entries.len(),
{
    if entries.len() == 0 {
        Seq::empty()
    } else if entries.last().thread == thread {
        jobs_of(entries.drop_last(), thread).push(entries.last().job)
    } else {
        jobs_of(entries.drop_last(), thread)
    }
}

/// Where a worker stands: in its own calls, and with each child it ever fanned out.
pub struct WorkerPlace {
    pub worker: Worker,
    pub kids: Map<int, Stopper>,
}

/// A stretch of worker `i` that makes a step.
pub open spec fn worker_step(
    i: int,
    place: WorkerPlace,
    link: int,
    found: ParkState,
    left: ParkState,
    m: Move,
) -> Option<WorkerPlace> {
    let kids = place.kids;
    match m {
        Move::Notice(j) => if j == i && link == i && place.worker is Running
            && found.pending_request && left == found {
            Some(WorkerPlace { worker: Worker::Stopping, ..place })
        } else {
            None
        },
        Move::Request(c) => if link == c && place.worker is Stopping && kids.dom().contains(c)
            && kids[c] is Idle && left == found.after_request() {
            Some(WorkerPlace { kids: kids.insert(c, Stopper::Waiting), ..place })
        } else {
            None
        },
        Move::Answer(c) => if link == c && place.worker is Stopping && kids.dom().contains(c)
            && kids[c] is Waiting && found.spec_is_settled() && left == found.after_answer() {
            Some(WorkerPlace { kids: kids.insert(c, stopper_after(found.outcome())), ..place })
        } else {
            None
        },
        Move::Park(j) => if j == i && link == i && place.worker is Stopping && (forall|c: int|
            #[trigger] kids.dom().contains(c) ==> kids[c].holds()) && left == found.after_park() {
            Some(WorkerPlace { worker: Worker::Parked, ..place })
        } else {
            None
        },
        Move::Unpark(j) => if j == i && link == i && place.worker is Parked
            && !found.pending_request && left == found.after_unpark() {
            Some(WorkerPlace { worker: Worker::Resuming, ..place })
        } else {
            None
        },
        Move::Release(c) => if link == c && place.worker is Resuming && kids.dom().contains(c)
            && kids[c] is HoldsParked && left == found.after_release() {
            Some(WorkerPlace { kids: kids.insert(c, Stopper::Releasing), ..place })
        } else {
            None
        },
        Move::Released(c) => if link == c && place.worker is Resuming && kids.dom().contains(c)
            && kids[c] is Releasing && found.spec_is_resumed() && left == found {
            Some(WorkerPlace { kids: kids.insert(c, Stopper::Idle), ..place })
        } else {
            None
        },
        Move::Close(j) => if j == i && link == i && place.worker is Running && left
            == found.after_close() {
            Some(WorkerPlace { worker: Worker::Closed, ..place })
        } else {
            None
        },
        _ => None,
    }
}

/// Where worker `i` stands after a job; none if that is no job for it there.
pub open spec fn worker_next<V>(i: int, place: WorkerPlace, job: Job<V>) -> Option<WorkerPlace> {
    match job {
        Job::Locked { link, stretch, step: None } => if stretch.left == stretch.found {
            Some(place)
        } else {
            None
        },
        Job::Locked { link, stretch, step: Some(m) } => worker_step(
            i,
            place,
            link,
            stretch.found,
            stretch.left,
            m,
        ),
        Job::Resume => if place.worker is Resuming && (forall|c: int| #[trigger]
            place.kids.dom().contains(c) ==> place.kids[c] is Idle
                || place.kids[c] is HoldsClosed) {
            Some(WorkerPlace { worker: Worker::Running, ..place })
        } else {
            None
        },
        Job::Fork(c) => if place.worker is Running {
            Some(WorkerPlace { kids: place.kids.insert(c, Stopper::Idle), ..place })
        } else {
            None
        },
        Job::Write(_) => if place.worker is Running {
            Some(place)
        } else {
            None
        },
        _ => None,
    }
}

/// Where worker `i` gets to from a place by some jobs; none if they are no jobs for it.
pub open spec fn worker_goes<V>(i: int, place: WorkerPlace, jobs: Seq<Job<V>>) -> Option<
    WorkerPlace,
>
    decreases jobs.len(),
{
    if jobs.len() == 0 {
        Some(place)
    } else {
        match worker_goes(i, place, jobs.drop_last()) {
            Some(there) => worker_next(i, there, jobs.last()),
            None => None,
        }
    }
}

/// Where a worker stands after its first jobs; none if they are no jobs for it.
pub open spec fn worker_walk<V>(i: int, jobs: Seq<Job<V>>) -> Option<WorkerPlace> {
    worker_goes(i, WorkerPlace { worker: Worker::Running, kids: Map::empty() }, jobs)
}

/// Where a requester stands. The flag tells whether it has seen the handle closed.
pub enum RequesterPlace {
    /// Without the lock of the queue.
    Outside(bool),
    /// With the lock, before the second look.
    Inside(bool),
    /// The second look found a stop that nobody took back.
    FoundStop(bool),
    /// Taking a stop back.
    Releasing(bool),
    /// No request is up.
    Free(bool),
    /// A request is up and not yet answered.
    Waiting,
    /// With a guard.
    Holding,
}

/// A stretch of a requester.
pub open spec fn requester_stretch(
    place: RequesterPlace,
    found: ParkState,
    left: ParkState,
    step: Option<Move>,
) -> Option<RequesterPlace> {
    match place {
        RequesterPlace::Outside(_) => if step is None && left == found {
            Some(RequesterPlace::Outside(found.closed))
        } else {
            None
        },
        RequesterPlace::Inside(closed) => if step is None && left == found {
            if found.pending_request {
                Some(RequesterPlace::FoundStop(closed))
            } else {
                Some(RequesterPlace::Free(closed))
            }
        } else {
            None
        },
        RequesterPlace::FoundStop(closed) => if step == Some(Move::Release(0)) && left
            == found.after_release() {
            Some(RequesterPlace::Releasing(closed))
        } else {
            None
        },
        RequesterPlace::Releasing(closed) => if step == Some(Move::Released(0))
            && found.spec_is_resumed() && left == found {
            Some(RequesterPlace::Free(closed))
        } else {
            None
        },
        RequesterPlace::Free(_) => if step == Some(Move::Request(0)) && left
            == found.after_request() {
            Some(RequesterPlace::Waiting)
        } else {
            None
        },
        RequesterPlace::Waiting => if left != found.after_answer() {
            None
        } else if found.spec_is_settled() && step == Some(Move::Answer(0)) {
            Some(RequesterPlace::Holding)
        } else if !found.spec_is_settled() && step == Some(Move::GiveUp) {
            Some(RequesterPlace::Free(false))
        } else {
            None
        },
        RequesterPlace::Holding => if step == Some(Move::Release(0)) && left
            == found.after_release() {
            Some(RequesterPlace::Releasing(false))
        } else {
            None
        },
    }
}

/// Where a requester stands after a job; none if that is no job for it there.
pub open spec fn requester_next<V>(place: RequesterPlace, job: Job<V>) -> Option<RequesterPlace> {
    match job {
        Job::Locked { link, stretch, step } => if link == 0 {
            requester_stretch(place, stretch.found, stretch.left, step)
        } else {
            None
        },
        Job::Enter => match place {
            RequesterPlace::Outside(closed) => Some(RequesterPlace::Inside(closed)),
            _ => None,
        },
        Job::Claim => match place {
            RequesterPlace::Free(true) => Some(RequesterPlace::Holding),
            _ => None,
        },
        Job::Leave => match place {
            RequesterPlace::Free(_) => Some(RequesterPlace::Outside(false)),
            _ => None,
        },
        Job::Abandon => match place {
            RequesterPlace::Holding => Some(RequesterPlace::Outside(false)),
            _ => None,
        },
        _ => None,
    }
}

/// Where a requester gets to from a place by some jobs; none if they are no jobs for it.
pub open spec fn requester_goes<V>(place: RequesterPlace, jobs: Seq<Job<V>>) -> Option<
    RequesterPlace,
>
    decreases jobs.len(),
{
    if jobs.len() == 0 {
        Some(place)
    } else {
        match requester_goes(place, jobs.drop_last()) {
            Some(there) => requester_next(there, jobs.last()),
            None => None,
        }
    }
}

/// Where a requester stands after its first jobs; none if they are no jobs for it.
pub open spec fn requester_walk<V>(jobs: Seq<Job<V>>) -> Option<RequesterPlace> {
    requester_goes(RequesterPlace::Outside(false), jobs)
}

/// The locks and the numbering let a job be done here: the stretch finds what is
/// under the lock of its pair, the lock of the queue is free when it is taken, only
/// workers that there are do something, a new child gets the next number, and a
/// worker closes when its children have, its fan-outs being over.
pub open spec fn is_let_in<V>(
    site: Site<V>,
    entry: Entry<V>,
    pairs: spec_fn(int) -> Monitor,
) -> bool {
    &&& entry.thread matches Thread::Worker(i) ==> in_world(site.world, i)
    &&& match entry.job {
        Job::Locked { link, stretch, step } => {
            &&& in_world(site.world, link)
            &&& stretch.pair == pairs(link)
            &&& stretch.found == site.world[link].state
            &&& step matches Some(Move::Close(i)) ==> forall|c: int| #[trigger]
                child_of(site.world, c, i) ==> site.world[c].state.closed
        },
        Job::Enter => site.holder is None,
        Job::Fork(c) => c == site.world.len(),
        _ => true,
    }
}

/// The threads do these jobs in this order, from a fresh tree on, as the locks let
/// them in.
pub open spec fn is_interleaving<V>(
    sites: Seq<Site<V>>,
    entries: Seq<Entry<V>>,
    pairs: spec_fn(int) -> Monitor,
) -> bool {
    &&& sites.len() == entries.len() + 1
    &&& sites[0] == Site::<V>::initial()
    &&& forall|k: int|
        0 <= k < entries.len() ==> #[trigger] is_let_in(sites[k], entries[k], pairs) && sites[k + 1]
            == sites[k].after(event_of(entries[k]))
}

/// Where worker `i` stands after these jobs.
pub open spec fn worker_place<V>(entries: Seq<Entry<V>>, i: int) -> Option<WorkerPlace> {
    worker_walk(i, jobs_of(entries, Thread::Worker(i)))
}

/// Where requester `r` stands after these jobs.
pub open spec fn requester_place<V>(entries: Seq<Entry<V>>, r: int) -> Option<RequesterPlace> {
    requester_walk(jobs_of(entries, Thread::Requester(r)))
}

/// Every thread does the jobs of a thread.
pub open spec fn are_threads<V>(entries: Seq<Entry<V>>) -> bool {
    &&& forall|i: int| (#[trigger] worker_place(entries, i)) is Some
    &&& forall|r: int| (#[trigger] requester_place(entries, r)) is Some
}

/// The events of a list of jobs.
pub open spec fn events_of<V>(entries: Seq<Entry<V>>) -> Seq<Event<V>> {
    entries.map_values(|entry: Entry<V>| event_of(entry))
}

/// In this world worker `i` stands there.
pub open spec fn worker_stands(w: World, i: int, place: WorkerPlace) -> bool {
    &&& in_world(w, i)
    &&& w[i].worker == place.worker
    &&& forall|c: int| #[trigger] place.kids.dom().contains(c) ==> child_of(w, c, i)
    &&& forall|c: int| #[trigger]
        child_of(w, c, i) ==> place.kids.dom().contains(c) && w[c].stopper == place.kids[c]
}

/// At this site requester `r` stands there.
pub open spec fn requester_stands<V>(site: Site<V>, r: int, place: RequesterPlace) -> bool {
    let pair = site.world[0];
    match place {
        RequesterPlace::Outside(closed) => site.holder != Some(r) && (closed
            ==> pair.state.closed),
        RequesterPlace::Inside(closed) => site.holder == Some(r) && (closed ==> pair.state.closed)
            && (pair.stopper is Idle || site.left_over),
        RequesterPlace::FoundStop(closed) => site.holder == Some(r) && (closed
            ==> pair.state.closed) && site.left_over,
        RequesterPlace::Releasing(closed) => site.holder == Some(r) && (closed
            ==> pair.state.closed) && pair.stopper is Releasing,
        RequesterPlace::Free(closed) => site.holder == Some(r) && (closed ==> pair.state.closed)
            && pair.stopper is Idle,
        RequesterPlace::Waiting => site.holder == Some(r) && pair.stopper is Waiting,
        RequesterPlace::Holding => site.guards.contains(r),
    }
}

/// A step of the handshake, as a thread of the tree makes it, leaves every other
/// worker where it stands.
proof fn lemma_others_stay(w: World, m: Move, i: int, place: WorkerPlace)
    requires
        sound(w),
        enabled(w, m),
        worker_stands(w, i, place),
        match m {
            Move::Request(c) | Move::Answer(c) | Move::Release(c) | Move::Released(c) => w[c].parent
                != Some(i),
            Move::Notice(j)
            | Move::Park(j)
            | Move::Unpark(j)
            | Move::Resume(j)
            | Move::Close(j)
            | Move::Fork(j) => j != i,
            _ => true,
        },
    ensures
        worker_stands(apply(w, m), i, place),
{
    let after = apply(w, m);
    assert forall|c: int| #[trigger] place.kids.dom().contains(c) implies child_of(after, c, i) by {
        assert(child_of(w, c, i));
    }
    assert forall|c: int| #[trigger] child_of(after, c, i) implies place.kids.dom().contains(c)
        && after[c].stopper == place.kids[c] by {
        assert(child_of(w, c, i));
    }
}

/// No worker is gone from the world, and those that have closed stay so.
proof fn lemma_steps_keep_the_closed(w: World, m: Move, i: int)
    requires
        enabled(w, m),
        in_world(w, i),
    ensures
        in_world(apply(w, m), i),
        w[i].state.closed ==> apply(w, m)[i].state.closed,
        apply(w, m)[i].parent == w[i].parent,
{
}

/// A stretch of a worker is a step of the handshake.
proof fn lemma_worker_stretch_is_a_step(
    w: World,
    i: int,
    place: WorkerPlace,
    link: int,
    left: ParkState,
    m: Move,
)
    requires
        sound(w),
        worker_stands(w, i, place),
        in_world(w, link),
        worker_step(i, place, link, w[link].state, left, m) is Some,
        m == Move::Close(i) ==> forall|c: int| #[trigger]
            child_of(w, c, i) ==> w[c].state.closed,
    ensures
        enabled(w, m),
        !is_asked(m),
        m != Move::LetGo,
        apply(w, m).len() == w.len(),
        apply(w, m)[link].state == left,
        worker_stands(
            apply(w, m),
            i,
            worker_step(i, place, link, w[link].state, left, m)->0,
        ),
        match m {
            Move::Request(c) | Move::Answer(c) | Move::Release(c) | Move::Released(c) => w[c].parent
                == Some(i),
            Move::Notice(j)
            | Move::Park(j)
            | Move::Unpark(j)
            | Move::Close(j) => j == i,
            _ => false,
        },
{
    let after = apply(w, m);
    let next = worker_step(i, place, link, w[link].state, left, m)->0;
    assert(w[link].consistent());
    match m {
        Move::Request(c) | Move::Answer(c) | Move::Release(c) | Move::Released(c) => {
            assert(place.kids.dom().contains(c));
            assert(child_of(w, c, i));
            assert(c > i);
        },
        Move::Park(_) => {
            assert forall|c: int| #[trigger] child_of(w, c, i) implies w[c].stopper.holds() by {
                assert(place.kids.dom().contains(c));
            }
        },
        Move::Close(_) => {
            assert forall|c: int| #[trigger] child_of(w, c, i) implies w[c].worker is Closed by {
                assert(w[c].consistent());
            }
        },
        _ => {},
    }
    assert(enabled(w, m));
    assert forall|c: int| #[trigger] next.kids.dom().contains(c) implies child_of(after, c, i) by {
        assert(place.kids.dom().contains(c));
        assert(child_of(w, c, i));
    }
    assert forall|c: int| #[trigger] child_of(after, c, i) implies next.kids.dom().contains(c)
        && after[c].stopper == next.kids[c] by {
        assert(child_of(w, c, i));
    }
}

/// All threads stand at this site where their jobs have led them.
spec fn all_stand<V>(site: Site<V>, entries: Seq<Entry<V>>) -> bool {
    &&& site.sound()
    &&& forall|i: int|
        in_world(site.world, i) ==> ((#[trigger] worker_place(entries, i)) matches Some(place)
            && worker_stands(site.world, i, place))
    &&& forall|i: int|
        !in_world(site.world, i) ==> (#[trigger] worker_place(entries, i)) == Some(
            WorkerPlace { worker: Worker::Running, kids: Map::empty() },
        )
    &&& forall|r: int|
        (#[trigger] requester_place(entries, r)) matches Some(place) && requester_stands(
            site,
            r,
            place,
        )
}

proof fn lemma_jobs_grow<V>(before: Seq<Entry<V>>, entry: Entry<V>, thread: Thread)
    ensures
        jobs_of(before.push(entry), thread) == if entry.thread == thread {
            jobs_of(before, thread).push(entry.job)
        } else {
            jobs_of(before, thread)
        },
        entry.thread == thread ==> jobs_of(before.push(entry), thread).drop_last() == jobs_of(
            before,
            thread,
        ),
{
    assert(before.push(entry).drop_last() == before);
    assert(jobs_of(before, thread).push(entry.job).drop_last() == jobs_of(before, thread));
}

proof fn lemma_others_keep_their_place<V>(before: Seq<Entry<V>>, entry: Entry<V>)
    ensures
        forall|i: int|
            entry.thread != Thread::Worker(i) ==> #[trigger] worker_place(before.push(entry), i)
                == worker_place(before, i),
        forall|r: int|
            entry.thread != Thread::Requester(r) ==> #[trigger] requester_place(
                before.push(entry),
                r,
            ) == requester_place(before, r),
{
    assert forall|i: int| entry.thread != Thread::Worker(i) implies #[trigger] worker_place(
        before.push(entry),
        i,
    ) == worker_place(before, i) by {
        lemma_jobs_grow(before, entry, Thread::Worker(i));
    }
    assert forall|r: int| entry.thread != Thread::Requester(r) implies #[trigger] requester_place(
        before.push(entry),
        r,
    ) == requester_place(before, r) by {
        lemma_jobs_grow(before, entry, Thread::Requester(r));
    }
}

/// What is under the lock of a pair after a stretch is what the stretch left there.
pub open spec fn is_left<V>(site: Site<V>, entry: Entry<V>) -> bool {
    entry.job matches Job::Locked { link, stretch, step } ==> site.world[link].state
        == stretch.left
}

proof fn lemma_worker_moves_on<V>(
    site: Site<V>,
    before: Seq<Entry<V>>,
    entry: Entry<V>,
    pairs: spec_fn(int) -> Monitor,
    i: int,
)
    requires
        all_stand(site, before),
        entry.thread == Thread::Worker(i),
        is_let_in(site, entry, pairs),
        worker_place(before.push(entry), i) is Some,
    ensures
        site.can(event_of(entry)),
        all_stand(site.after(event_of(entry)), before.push(entry)),
        is_left(site.after(event_of(entry)), entry),
{
    let w = site.world;
    let e = event_of(entry);
    let after = site.after(e);
    let entries = before.push(entry);
    let place = worker_place(before, i)->0;
    let next = worker_place(entries, i)->0;
    assert(worker_stands(w, i, place));
    lemma_jobs_grow(before, entry, Thread::Worker(i));
    lemma_others_keep_their_place(before, entry);
    assert(worker_next(i, place, entry.job) == Some(next));
    match entry.job {
        Job::Locked { link, stretch, step: Some(m) } => {
            lemma_worker_stretch_is_a_step(w, i, place, link, stretch.left, m);
        },
        Job::Resume => {
            assert forall|c: int| #[trigger] child_of(w, c, i) implies w[c].stopper is Idle
                || w[c].stopper is HoldsClosed by {
                assert(place.kids.dom().contains(c));
            }
        },
        _ => {},
    }
    assert(site.can(e));
    lemma_event_keeps_sound(site, e);
    match e {
        Event::Work(m) => {
            assert(enabled(w, m));
            lemma_work_leaves_the_requester(w, m);
            lemma_steps_keep_the_closed(w, m, 0);
            assert(worker_stands(after.world, i, next)) by {
                if entry.job is Resume || entry.job is Fork {
                    assert forall|c: int| #[trigger] next.kids.dom().contains(c) implies child_of(
                        after.world,
                        c,
                        i,
                    ) by {
                        if place.kids.dom().contains(c) {
                            assert(child_of(w, c, i));
                        }
                    }
                    assert forall|c: int| #[trigger] child_of(after.world, c, i) implies
                        next.kids.dom().contains(c) && after.world[c].stopper == next.kids[c] by {
                        if in_world(w, c) {
                            assert(child_of(w, c, i));
                        }
                    }
                }
            }
            assert forall|j: int| in_world(after.world, j) implies ((#[trigger] worker_place(
                entries,
                j,
            )) matches Some(there) && worker_stands(after.world, j, there)) by {
                if j != i {
                    if in_world(w, j) {
                        lemma_others_stay(w, m, j, worker_place(before, j)->0);
                    } else {
                        assert forall|c: int| #[trigger] child_of(after.world, c, j) implies false by {
                            if in_world(w, c) {
                                assert(w[c].parent is None || w[c].parent->0 < c);
                            }
                        }
                    }
                }
            }
        },
        _ => {
            assert(after.world == w);
            assert(next == place);
        },
    }
    assert forall|r: int|
        (#[trigger] requester_place(entries, r)) matches Some(there) && requester_stands(
            after,
            r,
            there,
        ) by {
        assert(requester_place(entries, r) == requester_place(before, r));
    }
    assert forall|j: int| !in_world(after.world, j) implies (#[trigger] worker_place(entries, j))
        == Some(WorkerPlace { worker: Worker::Running, kids: Map::empty() }) by {
        assert(!in_world(w, j));
    }
}

proof fn lemma_requester_moves_on<V>(
    site: Site<V>,
    before: Seq<Entry<V>>,
    entry: Entry<V>,
    pairs: spec_fn(int) -> Monitor,
    r: int,
)
    requires
        all_stand(site, before),
        entry.thread == Thread::Requester(r),
        is_let_in(site, entry, pairs),
        requester_place(before.push(entry), r) is Some,
    ensures
        site.can(event_of(entry)),
        all_stand(site.after(event_of(entry)), before.push(entry)),
        is_left(site.after(event_of(entry)), entry),
{
    let w = site.world;
    let e = event_of(entry);
    let after = site.after(e);
    let entries = before.push(entry);
    let place = requester_place(before, r)->0;
    let next = requester_place(entries, r)->0;
    assert(requester_stands(site, r, place));
    lemma_jobs_grow(before, entry, Thread::Requester(r));
    lemma_others_keep_their_place(before, entry);
    assert(requester_next(place, entry.job) == Some(next));
    assert(w[0].consistent());
    assert(site.can(e));
    lemma_event_keeps_sound(site, e);
    let step = match e {
        Event::Ask(_, m) => Some(m),
        Event::Abandon(_) => if w[0].stopper is HoldsClosed {
            Some(Move::LetGo)
        } else {
            None
        },
        _ => None,
    };
    if let Some(m) = step {
        assert(enabled(w, m));
        assert(after.world == apply(w, m));
        assert(w[0].parent is None);
        assert forall|j: int| in_world(after.world, j) implies ((#[trigger] worker_place(
            entries,
            j,
        )) matches Some(there) && worker_stands(after.world, j, there)) by {
            assert(in_world(w, j));
            assert(worker_place(entries, j) == worker_place(before, j));
            lemma_others_stay(w, m, j, worker_place(before, j)->0);
        }
    } else {
        assert(after.world == w);
    }
    assert forall|q: int|
        (#[trigger] requester_place(entries, q)) matches Some(there) && requester_stands(
            after,
            q,
            there,
        ) by {
        if q != r {
            assert(requester_place(entries, q) == requester_place(before, q));
            assert(requester_stands(site, q, requester_place(before, q)->0));
        }
    }
}

proof fn lemma_all_stand<V>(
    sites: Seq<Site<V>>,
    entries: Seq<Entry<V>>,
    pairs: spec_fn(int) -> Monitor,
    k: int,
)
    requires
        is_interleaving(sites, entries, pairs),
        are_threads(entries),
        0 <= k <= entries.len(),
    ensures
        all_stand(sites[k], entries.take(k)),
        k > 0 ==> sites[k - 1].can(event_of(entries[k - 1])) && is_left(sites[k], entries[k - 1]),
    decreases k,
{
    if k == 0 {
        lemma_first_world_is_sound();
        assert(entries.take(0).len() == 0);
        assert(sites[0].sound());
        assert forall|c: int| !(#[trigger] child_of(start(), c, 0)) by {}
        assert forall|i: int| (#[trigger] worker_place(entries.take(0), i)) == Some(
            WorkerPlace { worker: Worker::Running, kids: Map::empty() },
        ) by {}
    } else {
        lemma_all_stand(sites, entries, pairs, k - 1);
        let before = entries.take(k - 1);
        let entry = entries[k - 1];
        assert(entries.take(k) == before.push(entry));
        assert(is_let_in(sites[k - 1], entries[k - 1], pairs));
        assert(sites[(k - 1) + 1] == sites[k - 1].after(event_of(entries[k - 1])));
        match entry.thread {
            Thread::Worker(i) => {
                lemma_places_on_the_way(entries, k, i, 0);
                lemma_worker_moves_on(sites[k - 1], before, entry, pairs, i);
            },
            Thread::Requester(r) => {
                lemma_places_on_the_way(entries, k, 0, r);
                lemma_requester_moves_on(sites[k - 1], before, entry, pairs, r);
            },
        }
    }
}

pub(crate) proof fn lemma_places_on_the_way<V>(entries: Seq<Entry<V>>, k: int, i: int, r: int)
    requires
        are_threads(entries),
        0 <= k <= entries.len(),
    ensures
        worker_place(entries.take(k), i) is Some,
        requester_place(entries.take(k), r) is Some,
    decreases entries.len() - k,
{
    if k == entries.len() {
        assert(entries.take(k) == entries);
    } else {
        lemma_places_on_the_way(entries, k + 1, i, r);
        assert(entries.take(k + 1) == entries.take(k).push(entries[k]));
        lemma_jobs_grow(entries.take(k), entries[k], Thread::Worker(i));
        lemma_jobs_grow(entries.take(k), entries[k], Thread::Requester(r));
    }
}

/// Threads that do the jobs of threads, in whatever order the locks let them in, make
/// a history: each job can be done when it is, and every stretch leaves under the lock
/// what its step leaves in the tree.
pub proof fn lemma_interleavings_are_histories<V>(
    sites: Seq<Site<V>>,
    entries: Seq<Entry<V>>,
    pairs: spec_fn(int) -> Monitor,
)
    requires
        is_interleaving(sites, entries, pairs),
        are_threads(entries),
    ensures
        is_history(sites, events_of(entries)),
        forall|k: int| 0 <= k < entries.len() ==> is_left(sites[k + 1], #[trigger] entries[k]),
{
    let events = events_of(entries);
    assert forall|k: int| 0 <= k < events.len() implies #[trigger] sites[k].can(events[k])
        && sites[k + 1] == sites[k].after(events[k]) by {
        lemma_all_stand(sites, entries, pairs, k + 1);
        assert(is_let_in(sites[k], entries[k], pairs));
    }
    assert forall|k: int| 0 <= k < entries.len() implies is_left(sites[k + 1], #[trigger] entries[k]) by {
        lemma_all_stand(sites, entries, pairs, k + 1);
    }
}

/// In the order in which the locks let them in, the threads stand at every site where
/// their own jobs have led them, whatever the others did meanwhile.
pub proof fn lemma_threads_stand_where_they_are<V>(
    sites: Seq<Site<V>>,
    entries: Seq<Entry<V>>,
    pairs: spec_fn(int) -> Monitor,
    k: int,
    i: int,
    r: int,
)
    requires
        is_interleaving(sites, entries, pairs),
        are_threads(entries),
        0 <= k <= entries.len(),
    ensures
        in_world(sites[k].world, i) ==> (worker_place(entries.take(k), i) matches Some(place)
            && worker_stands(sites[k].world, i, place)),
        requester_place(entries.take(k), r) matches Some(place) && requester_stands(
            sites[k],
            r,
            place,
        ),
{
    lemma_all_stand(sites, entries, pairs, k);
}

} // verus!
