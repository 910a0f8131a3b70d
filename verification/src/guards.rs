//! Several requesters around one tree of workers, and what their guards read.
//!
//! The requesters queue up for one lock: whoever has it plays the requester of
//! [`crate::quiesce`], and keeps it until the guard is gone. A guard may be gone
//! without having released the world; the next requester does that then. Workers
//! write to their nodes while they are in user code.

use crate::quiesce::{
    apply,
    can_go_on,
    enabled,
    in_world,
    lemma_goes_on_by,
    lemma_nothing_moves_while_held,
    lemma_rest_is_inherited,
    lemma_step_keeps_sound,
    lemma_waiting_goes_on,
    sound,
    start,
    Move,
    Stopper,
    World,
};
use vstd::prelude::*;

verus! {

/// One step of one of the threads.
pub enum Event<V> {
    /// A requester takes the lock of the queue.
    Enter(int),
    /// The requester that has the lock makes a step of the handshake.
    Ask(int, Move),
    /// A requester that is done gives the lock back.
    Leave(int),
    /// A guard is gone without having released the world.
    Abandon(int),
    /// Somebody looks at a pair and does nothing.
    Look,
    /// A worker makes a step, as such or as the parent of another.
    Work(Move),
    /// A worker writes a value to its node.
    Write(int, V),
}

/// A tree, its requesters, and what was written to its nodes.
pub struct Site<V> {
    pub world: World,
    /// The requester that has the lock of the queue.
    pub holder: Option<int>,
    /// The requesters that have a guard.
    pub guards: Set<int>,
    /// The world is stopped, and the guard that it was stopped for is gone.
    pub left_over: bool,
    /// Who wrote what, in the order of the writes.
    pub writes: Seq<(int, V)>,
}

/// A step that is the requester's, not a worker's.
pub open spec fn is_asked(m: Move) -> bool {
    match m {
        Move::Request(i) => i == 0,
        Move::Answer(i) => i == 0,
        Move::Release(i) => i == 0,
        Move::Released(i) => i == 0,
        Move::GiveUp | Move::TakeClosed => true,
        _ => false,
    }
}

impl<V> Site<V> {
    /// One running handle, no requester at work, nothing written.
    pub open spec fn initial() -> Site<V> {
        Site {
            world: start(),
            holder: None,
            guards: Set::empty(),
            left_over: false,
            writes: Seq::empty(),
        }
    }

    /// Whether a step can be made.
    pub open spec fn can(self, e: Event<V>) -> bool {
        match e {
            Event::Enter(_) => self.holder is None,
            Event::Ask(r, m) => self.holder == Some(r) && is_asked(m) && enabled(self.world, m),
            Event::Leave(r) => self.holder == Some(r) && self.world[0].stopper is Idle,
            Event::Abandon(r) => self.guards.contains(r),
            Event::Look => true,
            Event::Work(m) => !is_asked(m) && m != Move::LetGo && enabled(self.world, m),
            Event::Write(i, _) => in_world(self.world, i) && self.world[i].worker is Running,
        }
    }

    /// The site after a step. A requester has a guard from the answer that grants
    /// it to the release.
    pub open spec fn after(self, e: Event<V>) -> Site<V> {
        match e {
            Event::Enter(r) => Site { holder: Some(r), ..self },
            Event::Ask(r, m) => Site {
                world: apply(self.world, m),
                guards: if apply(self.world, m)[0].stopper.holds() {
                    self.guards.insert(r)
                } else {
                    self.guards.remove(r)
                },
                left_over: self.left_over && m != Move::Release(0),
                ..self
            },
            Event::Leave(_) => Site { holder: None, ..self },
            Event::Abandon(r) => if self.world[0].stopper is HoldsClosed {
                Site {
                    world: apply(self.world, Move::LetGo),
                    holder: None,
                    guards: self.guards.remove(r),
                    ..self
                }
            } else {
                Site { holder: None, guards: self.guards.remove(r), left_over: true, ..self }
            },
            Event::Look => self,
            Event::Work(m) => Site { world: apply(self.world, m), ..self },
            Event::Write(i, value) => Site { writes: self.writes.push((i, value)), ..self },
        }
    }

    /// What holds at every site of a history.
    pub open spec fn sound(self) -> bool {
        &&& sound(self.world)
        &&& self.holder is None ==> self.world[0].stopper is Idle || self.left_over
        &&& self.left_over ==> self.world[0].stopper is HoldsParked
        &&& forall|r: int| #[trigger]
            self.guards.contains(r) <==> self.holder == Some(r) && self.world[0].stopper.holds()
                && !self.left_over
    }

    /// All that worker `i` wrote to its node, in order. The last of it is what the
    /// node holds.
    pub open spec fn written_by(self, i: int) -> Seq<V> {
        values_of(self.writes, i)
    }
}

/// The values that worker `i` wrote, in order.
pub open spec fn values_of<V>(writes: Seq<(int, V)>, i: int) -> Seq<V>
    decreases writes.len(),
{
    if writes.len() == 0 {
        Seq::empty()
    } else if writes.last().0 == i {
        values_of(writes.drop_last(), i).push(writes.last().1)
    } else {
        values_of(writes.drop_last(), i)
    }
}

/// A history: it begins at the start, and each site follows from the one before by
/// a step that could be made.
pub open spec fn is_history<V>(sites: Seq<Site<V>>, events: Seq<Event<V>>) -> bool {
    &&& sites.len() == events.len() + 1
    &&& sites[0] == Site::<V>::initial()
    &&& forall|k: int|
        0 <= k < events.len() ==> #[trigger] sites[k].can(events[k]) && sites[k + 1]
            == sites[k].after(events[k])
}

pub(crate) proof fn lemma_first_world_is_sound()
    ensures
        sound(start()),
{
    assert(start()[0].consistent());
}

pub(crate) proof fn lemma_work_leaves_the_requester(w: World, m: Move)
    requires
        sound(w),
        enabled(w, m),
        !is_asked(m),
        m != Move::LetGo,
    ensures
        apply(w, m)[0].stopper == w[0].stopper,
{
}

pub(crate) proof fn lemma_event_keeps_sound<V>(site: Site<V>, e: Event<V>)
    requires
        site.sound(),
        site.can(e),
    ensures
        site.after(e).sound(),
{
    match e {
        Event::Ask(_, m) => {
            lemma_step_keeps_sound(site.world, m);
        },
        Event::Work(m) => {
            lemma_step_keeps_sound(site.world, m);
            lemma_work_leaves_the_requester(site.world, m);
        },
        Event::Abandon(_) => {
            if site.world[0].stopper is HoldsClosed {
                lemma_step_keeps_sound(site.world, Move::LetGo);
            }
        },
        _ => {},
    }
}

/// Every site of a history is sound: a guard is only ever out while its requester
/// has the lock of the queue and the top-level handle is parked or gone.
pub proof fn lemma_histories_stay_sound<V>(sites: Seq<Site<V>>, events: Seq<Event<V>>, k: int)
    requires
        is_history(sites, events),
        0 <= k < sites.len(),
    ensures
        sites[k].sound(),
    decreases k,
{
    if k == 0 {
        lemma_first_world_is_sound();
    } else {
        lemma_histories_stay_sound(sites, events, k - 1);
        assert(sites[k - 1].can(events[k - 1]));
        lemma_event_keeps_sound(sites[k - 1], events[k - 1]);
        assert(sites[(k - 1) + 1] == sites[k - 1].after(events[k - 1]));
    }
}

/// At most one guard of a pair exists at any time, be the pair open or closed.
pub proof fn lemma_one_guard_at_a_time<V>(
    sites: Seq<Site<V>>,
    events: Seq<Event<V>>,
    k: int,
    a: int,
    b: int,
)
    requires
        is_history(sites, events),
        0 <= k < sites.len(),
        sites[k].guards.contains(a),
        sites[k].guards.contains(b),
    ensures
        a == b,
{
    lemma_histories_stay_sound(sites, events, k);
}

/// The event is a step of that requester.
pub open spec fn asks<V>(e: Event<V>, r: int, m: Move) -> bool {
    e == Event::<V>::Ask(r, m)
}

proof fn lemma_lock_is_given_back<V>(
    sites: Seq<Site<V>>,
    events: Seq<Event<V>>,
    k: int,
    l: int,
    a: int,
) -> (j: int)
    requires
        is_history(sites, events),
        0 <= k <= l < sites.len(),
        sites[k].holder == Some(a),
        sites[l].holder != Some(a),
    ensures
        k <= j < l,
        events[j] == Event::<V>::Leave(a) || events[j] == Event::<V>::Abandon(a),
        forall|i: int| k <= i <= j ==> (#[trigger] sites[i]).holder == Some(a),
    decreases l - k,
{
    lemma_histories_stay_sound(sites, events, k);
    assert(sites[k].can(events[k]));
    assert(sites[k + 1] == sites[k].after(events[k]));
    if sites[k + 1].holder == Some(a) {
        lemma_lock_is_given_back(sites, events, k + 1, l, a)
    } else {
        k
    }
}

proof fn lemma_release_is_seen_through<V>(
    sites: Seq<Site<V>>,
    events: Seq<Event<V>>,
    k: int,
    l: int,
    a: int,
) -> (j: int)
    requires
        is_history(sites, events),
        0 <= k <= l < sites.len(),
        sites[k].holder == Some(a),
        sites[k].world[0].stopper is Releasing,
        !(sites[l].world[0].stopper is Releasing),
    ensures
        k <= j < l,
        events[j] == Event::<V>::Ask(a, Move::Released(0)),
    decreases l - k,
{
    lemma_histories_stay_sound(sites, events, k);
    assert(sites[k].can(events[k]));
    assert(sites[k + 1] == sites[k].after(events[k]));
    if let Event::Work(m) = events[k] {
        lemma_work_leaves_the_requester(sites[k].world, m);
    }
    if sites[k + 1].world[0].stopper is Releasing {
        lemma_release_is_seen_through(sites, events, k + 1, l, a)
    } else {
        k
    }
}

proof fn lemma_guard_is_released<V>(
    sites: Seq<Site<V>>,
    events: Seq<Event<V>>,
    k: int,
    l: int,
    a: int,
) -> (j: (int, int))
    requires
        is_history(sites, events),
        0 <= k <= l < sites.len(),
        forall|i: int| k <= i <= l ==> (#[trigger] sites[i]).holder == Some(a),
        sites[k].guards.contains(a),
        sites[l].world[0].stopper is Idle,
    ensures
        k <= j.0 < j.1 < l,
        events[j.0] == Event::<V>::Ask(a, Move::Release(0)),
        events[j.1] == Event::<V>::Ask(a, Move::Released(0)),
    decreases l - k,
{
    lemma_histories_stay_sound(sites, events, k);
    assert(sites[k].can(events[k]));
    assert(sites[k + 1] == sites[k].after(events[k]));
    lemma_histories_stay_sound(sites, events, k + 1);
    assert(sites[k + 1].holder == Some(a));
    if let Event::Work(m) = events[k] {
        lemma_work_leaves_the_requester(sites[k].world, m);
    }
    if sites[k + 1].guards.contains(a) {
        lemma_guard_is_released(sites, events, k + 1, l, a)
    } else {
        let j = lemma_release_is_seen_through(sites, events, k + 1, l, a);
        (k, j)
    }
}

/// The guards of different requesters come one after the other: the first is gone
/// before there is a second. If it was not abandoned, it was released, its worker was
/// seen to run again or to be gone, and the lock of the queue was given back, in this
/// order.
pub proof fn lemma_next_guard_waits_for_the_last<V>(
    sites: Seq<Site<V>>,
    events: Seq<Event<V>>,
    k: int,
    l: int,
    a: int,
    b: int,
)
    requires
        is_history(sites, events),
        0 <= k < l < sites.len(),
        sites[k].guards.contains(a),
        sites[l].guards.contains(b),
        a != b,
    ensures
        exists|left: int|
            k <= left < l && (#[trigger] events[left] == Event::<V>::Abandon(a) || (events[left]
                == Event::<V>::Leave(a) && exists|released: int, resumed: int|
                k <= released < resumed < left && #[trigger] events[released] == Event::<V>::Ask(
                    a,
                    Move::Release(0),
                ) && #[trigger] events[resumed] == Event::<V>::Ask(a, Move::Released(0)))),
{
    lemma_histories_stay_sound(sites, events, k);
    lemma_histories_stay_sound(sites, events, l);
    let left = lemma_lock_is_given_back(sites, events, k, l, a);
    assert(sites[left].can(events[left]));
    if events[left] == Event::<V>::Leave(a) {
        let (released, resumed) = lemma_guard_is_released(sites, events, k, left, a);
        assert(events[released] == Event::<V>::Ask(a, Move::Release(0)));
        assert(events[resumed] == Event::<V>::Ask(a, Move::Released(0)));
    }
}

/// A stop that is left over is taken back by a later requester, and the worker is
/// seen to run again, before there is another guard.
pub proof fn lemma_left_over_stop_is_taken_back<V>(
    sites: Seq<Site<V>>,
    events: Seq<Event<V>>,
    k: int,
    l: int,
    b: int,
)
    requires
        is_history(sites, events),
        0 <= k <= l < sites.len(),
        sites[k].left_over,
        sites[l].guards.contains(b),
    ensures
        exists|q: int, released: int, resumed: int|
            k <= released < resumed < l && #[trigger] asks(events[released], q, Move::Release(0))
                && #[trigger] asks(events[resumed], q, Move::Released(0)),
    decreases l - k,
{
    lemma_histories_stay_sound(sites, events, k);
    lemma_histories_stay_sound(sites, events, l);
    assert(k < l);
    assert(sites[k].can(events[k]));
    assert(sites[k + 1] == sites[k].after(events[k]));
    if let Event::Work(m) = events[k] {
        lemma_work_leaves_the_requester(sites[k].world, m);
    }
    if sites[k + 1].left_over {
        lemma_left_over_stop_is_taken_back(sites, events, k + 1, l, b);
    } else {
        let q = sites[k].holder->0;
        let resumed = lemma_release_is_seen_through(sites, events, k + 1, l, q);
        assert(asks(events[k], q, Move::Release(0)));
        assert(asks(events[resumed], q, Move::Released(0)));
    }
}

/// No request is lost and none deadlocks. As long as the queue is free, any
/// requester can take it. The one that has it can ask or leave; once it has asked,
/// some step of the handshake can be made until it has its answer, and again from
/// its release until the world goes on; and a guard, or a stop that is left over, can
/// be released.
pub proof fn lemma_no_request_gets_stuck<V>(
    sites: Seq<Site<V>>,
    events: Seq<Event<V>>,
    k: int,
    r: int,
)
    requires
        is_history(sites, events),
        0 <= k < sites.len(),
    ensures
        match sites[k].holder {
            None => sites[k].can(Event::Enter(r)),
            Some(q) => match sites[k].world[0].stopper {
                Stopper::Idle => sites[k].can(Event::Ask(q, Move::Request(0))) && sites[k].can(
                    Event::Leave(q),
                ),
                Stopper::Waiting | Stopper::Releasing => can_go_on(sites[k].world),
                Stopper::HoldsParked | Stopper::HoldsClosed => (sites[k].guards.contains(q)
                    || sites[k].left_over) && sites[k].can(Event::Ask(q, Move::Release(0))),
            },
        },
{
    lemma_histories_stay_sound(sites, events, k);
    let w = sites[k].world;
    assert(w[0].consistent());
    if w[0].stopper is Waiting {
        lemma_waiting_goes_on(w, 0);
    } else if w[0].stopper is Releasing {
        if w[0].state.spec_is_resumed() {
            lemma_goes_on_by(w, Move::Released(0));
        } else {
            lemma_goes_on_by(w, Move::Unpark(0));
        }
    }
}

/// A guard reads one state of the tree, however often it is asked: nothing is
/// written to any node while it is out. So what it reads is what the workers had
/// written when they parked or closed.
pub proof fn lemma_nothing_is_written_under_a_guard<V>(
    sites: Seq<Site<V>>,
    events: Seq<Event<V>>,
    k: int,
    l: int,
    a: int,
)
    requires
        is_history(sites, events),
        0 <= k <= l < sites.len(),
        forall|i: int| k <= i < l ==> (#[trigger] sites[i]).guards.contains(a),
    ensures
        sites[l].writes == sites[k].writes,
    decreases l - k,
{
    if k < l {
        lemma_histories_stay_sound(sites, events, k);
        assert(sites[k].guards.contains(a));
        assert(sites[k].can(events[k]));
        assert(sites[k + 1] == sites[k].after(events[k]));
        let w = sites[k].world;
        assert(w[0].consistent());
        if let Event::Write(i, _) = events[k] {
            lemma_rest_is_inherited(w, i);
        }
        lemma_nothing_is_written_under_a_guard(sites, events, k + 1, l, a);
    }
}

/// What a worker has written when it comes to rest is what it has written as long
/// as it stays at rest.
pub proof fn lemma_resting_worker_writes_nothing<V>(
    sites: Seq<Site<V>>,
    events: Seq<Event<V>>,
    k: int,
    l: int,
    i: int,
)
    requires
        is_history(sites, events),
        0 <= k <= l < sites.len(),
        forall|j: int| k <= j < l ==> (#[trigger] sites[j]).world[i].worker.at_rest(),
    ensures
        sites[l].written_by(i) == sites[k].written_by(i),
    decreases l - k,
{
    if k < l {
        assert(sites[k].world[i].worker.at_rest());
        assert(sites[k].can(events[k]));
        assert(sites[k + 1] == sites[k].after(events[k]));
        if let Event::Write(j, value) = events[k] {
            assert(j != i);
            assert(sites[k + 1].writes.drop_last() == sites[k].writes);
        }
        lemma_resting_worker_writes_nothing(sites, events, k + 1, l, i);
    }
}

/// What is read later includes what was read before: over successive guards the
/// values of a node follow the order in which its worker wrote them.
pub proof fn lemma_reads_follow_the_writes<V>(
    sites: Seq<Site<V>>,
    events: Seq<Event<V>>,
    k: int,
    l: int,
    i: int,
)
    requires
        is_history(sites, events),
        0 <= k <= l < sites.len(),
    ensures
        sites[k].written_by(i).is_prefix_of(sites[l].written_by(i)),
    decreases l - k,
{
    if k < l {
        assert(sites[k].can(events[k]));
        assert(sites[k + 1] == sites[k].after(events[k]));
        if let Event::Write(j, value) = events[k] {
            assert(sites[k + 1].writes.drop_last() == sites[k].writes);
        }
        assert(sites[k].written_by(i).is_prefix_of(sites[k + 1].written_by(i)));
        lemma_reads_follow_the_writes(sites, events, k + 1, l, i);
    }
}

/// The world stands still under a guard: from its grant to its end the state of every
/// pair of the tree stays as it was granted. If the top-level handle was parked, it is
/// parked with the request up until then.
pub proof fn lemma_world_stands_still_under_a_guard<V>(
    sites: Seq<Site<V>>,
    events: Seq<Event<V>>,
    k: int,
    l: int,
    a: int,
)
    requires
        is_history(sites, events),
        0 <= k <= l < sites.len(),
        forall|i: int| k <= i <= l ==> (#[trigger] sites[i]).guards.contains(a),
    ensures
        sites[l].world == sites[k].world,
        sites[l].world[0].state.closed || (sites[l].world[0].state.parked
            && sites[l].world[0].state.pending_request),
    decreases l - k,
{
    lemma_histories_stay_sound(sites, events, k);
    let w = sites[k].world;
    assert(sites[k].guards.contains(a));
    assert(w[0].consistent());
    if k < l {
        assert(sites[k].can(events[k]));
        assert(sites[k + 1] == sites[k].after(events[k]));
        assert(sites[k + 1].guards.contains(a));
        match events[k] {
            Event::Ask(_, m) => {
                lemma_nothing_moves_while_held(w, m);
            },
            Event::Work(m) => {
                lemma_nothing_moves_while_held(w, m);
            },
            _ => {},
        }
        lemma_world_stands_still_under_a_guard(sites, events, k + 1, l, a);
    }
}

} // verus!
