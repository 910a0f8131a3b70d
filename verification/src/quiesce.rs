//! A tree of workers under one checkpoint requester, as a transition system,
//! and what holds in every state it can reach.
//!
//! Each worker is tied to the side that stops it by one [`ParkState`]. Worker
//! `0` is the top-level handle; the requester stops it, whichever one stands
//! first in the queue of the requesters at that time. Every other worker was
//! fanned out by an earlier one, which stops it. Both sides change a pair's
//! state only by the transitions of [`ParkState`]. That the calls of all threads are
//! made of these steps is shown in [`crate::calls`].

use crate::handshake::{Change, Handshake, ParkState, Wake};
use vstd::prelude::*;

verus! {

/// Where the stopping side of a pair stands.
pub enum Stopper {
    /// No request is up.
    Idle,
    /// A request is up and not yet answered.
    Waiting,
    /// The request was answered: the worker is parked.
    HoldsParked,
    /// The worker was found closed. It is never stopped again.
    HoldsClosed,
    /// The request was taken back; the worker has not been seen to resume.
    Releasing,
}

impl Stopper {
    /// The stopping side may read the worker's node.
    pub open spec fn holds(self) -> bool {
        self is HoldsParked || self is HoldsClosed
    }
}

/// Where a worker stands.
pub enum Worker {
    /// In user code: it may hold references into its node.
    Running,
    /// At a safepoint with a request up, stopping its own children.
    Stopping,
    /// Parked.
    Parked,
    /// No longer parked, letting its children go on.
    Resuming,
    /// Finished.
    Closed,
}

impl Worker {
    /// The worker is out of user code and stays out until it is released.
    pub open spec fn at_rest(self) -> bool {
        self is Parked || self is Closed
    }
}

/// One worker and the side that stops it.
pub struct Link {
    pub state: ParkState,
    pub stopper: Stopper,
    pub worker: Worker,
    /// The worker that fanned this one out; none for the top-level handle.
    pub parent: Option<int>,
}

impl Link {
    /// A fresh pair.
    pub open spec fn fresh(parent: Option<int>) -> Link {
        Link {
            state: ParkState::initial(),
            stopper: Stopper::Idle,
            worker: Worker::Running,
            parent,
        }
    }

    /// The flags of the pair say where its two sides stand, and the stopping
    /// side only holds a worker that is parked or closed.
    pub open spec fn consistent(self) -> bool {
        &&& self.state.parked == (self.worker is Parked)
        &&& self.state.closed == (self.worker is Closed)
        &&& self.state.pending_request == (self.stopper is Waiting || self.stopper is HoldsParked)
        &&& self.stopper is HoldsParked ==> self.worker is Parked
        &&& self.stopper is HoldsClosed ==> self.worker is Closed
    }
}

/// A parent and one of its children agree.
pub open spec fn family(parent: Link, child: Link) -> bool {
    match parent.worker {
        Worker::Running => child.stopper is Idle || child.stopper is HoldsClosed,
        Worker::Stopping => !(child.stopper is Releasing),
        Worker::Parked => child.stopper.holds(),
        Worker::Resuming => !(child.stopper is Waiting),
        Worker::Closed => child.worker is Closed && (child.stopper is Idle
            || child.stopper is HoldsClosed),
    }
}

/// One atomic step of one of the threads.
pub enum Move {
    /// The stopping side of a pair raises a request.
    Request(int),
    /// The stopping side takes the answer of a worker that is parked or gone.
    Answer(int),
    /// The requester gives up: its deadline elapsed.
    GiveUp,
    /// The requester finds the top-level handle closed and asks no more.
    TakeClosed,
    /// The requester that found the top-level handle closed goes away.
    LetGo,
    /// The stopping side takes its request back.
    Release(int),
    /// The stopping side sees that the worker has resumed.
    Released(int),
    /// A worker comes to a safepoint while a request is up.
    Notice(int),
    /// A worker whose children are all stopped parks.
    Park(int),
    /// A parked worker sees its request gone.
    Unpark(int),
    /// A worker whose children all run again goes back to user code.
    Resume(int),
    /// A worker whose children are all finished finishes.
    Close(int),
    /// A worker fans out one more child.
    Fork(int),
}

impl Move {
    /// A step that user code does not have to decide on: the handshake makes
    /// it as soon as it can. Coming to a safepoint counts as one.
    pub open spec fn is_handshake(self) -> bool {
        match self {
            Move::Request(i) => i != 0,
            Move::GiveUp | Move::TakeClosed | Move::LetGo | Move::Close(_) | Move::Fork(_) => false,
            _ => true,
        }
    }
}

pub type World = Seq<Link>;

pub open spec fn in_world(w: World, i: int) -> bool {
    0 <= i < w.len()
}

pub open spec fn child_of(w: World, c: int, p: int) -> bool {
    in_world(w, c) && w[c].parent == Some(p)
}

/// Who may raise a request on pair `i`: the requester on the top-level pair,
/// a parent while it is stopping its children.
pub open spec fn may_stop(w: World, i: int) -> bool {
    w[i].parent matches Some(p) ==> w[p].worker is Stopping
}

/// Who may take a request on pair `i` back: the requester on the top-level
/// pair, a parent once it is no longer parked itself.
pub open spec fn may_release(w: World, i: int) -> bool {
    w[i].parent matches Some(p) ==> w[p].worker is Resuming
}

/// Whether a step can be made.
pub open spec fn enabled(w: World, m: Move) -> bool {
    match m {
        Move::Request(i) => in_world(w, i) && w[i].stopper is Idle && may_stop(w, i),
        Move::Answer(i) => in_world(w, i) && w[i].stopper is Waiting && may_stop(w, i)
            && w[i].state.spec_is_settled(),
        Move::GiveUp => in_world(w, 0) && w[0].stopper is Waiting
            && !w[0].state.spec_is_settled(),
        Move::TakeClosed => in_world(w, 0) && w[0].stopper is Idle && w[0].state.closed,
        Move::LetGo => in_world(w, 0) && w[0].stopper is HoldsClosed,
        Move::Release(i) => in_world(w, i) && may_release(w, i) && (w[i].stopper is HoldsParked || (
        i == 0 && w[i].stopper is HoldsClosed)),
        Move::Released(i) => in_world(w, i) && may_release(w, i) && w[i].stopper is Releasing
            && w[i].state.spec_is_resumed(),
        Move::Notice(i) => in_world(w, i) && w[i].worker is Running && w[i].state.pending_request,
        Move::Park(i) => in_world(w, i) && w[i].worker is Stopping && forall|c: int|
            #[trigger] child_of(w, c, i) ==> w[c].stopper.holds(),
        Move::Unpark(i) => in_world(w, i) && w[i].worker is Parked && !w[i].state.pending_request,
        Move::Resume(i) => in_world(w, i) && w[i].worker is Resuming && forall|c: int|
            #[trigger] child_of(w, c, i) ==> w[c].stopper is Idle || w[c].stopper is HoldsClosed,
        Move::Close(i) => in_world(w, i) && w[i].worker is Running && forall|c: int|
            #[trigger] child_of(w, c, i) ==> w[c].worker is Closed,
        Move::Fork(i) => in_world(w, i) && w[i].worker is Running,
    }
}

/// Where the stopping side stands once it has an answer.
pub open spec fn stopper_after(h: Handshake) -> Stopper {
    match h {
        Handshake::Parked => Stopper::HoldsParked,
        Handshake::Closed => Stopper::HoldsClosed,
        Handshake::TimedOut => Stopper::Idle,
    }
}

/// The world after a step.
pub open spec fn apply(w: World, m: Move) -> World {
    match m {
        Move::Request(i) => w.update(
            i,
            Link { state: w[i].state.after_request(), stopper: Stopper::Waiting, ..w[i] },
        ),
        Move::Answer(i) => w.update(
            i,
            Link {
                state: w[i].state.after_answer(),
                stopper: stopper_after(w[i].state.outcome()),
                ..w[i]
            },
        ),
        Move::GiveUp => w.update(
            0,
            Link {
                state: w[0].state.after_answer(),
                stopper: stopper_after(w[0].state.outcome()),
                ..w[0]
            },
        ),
        Move::TakeClosed => w.update(0, Link { stopper: Stopper::HoldsClosed, ..w[0] }),
        Move::LetGo => w.update(0, Link { stopper: Stopper::Idle, ..w[0] }),
        Move::Release(i) => w.update(
            i,
            Link { state: w[i].state.after_release(), stopper: Stopper::Releasing, ..w[i] },
        ),
        Move::Released(i) => w.update(i, Link { stopper: Stopper::Idle, ..w[i] }),
        Move::Notice(i) => w.update(i, Link { worker: Worker::Stopping, ..w[i] }),
        Move::Park(i) => w.update(
            i,
            Link { state: w[i].state.after_park(), worker: Worker::Parked, ..w[i] },
        ),
        Move::Unpark(i) => w.update(
            i,
            Link { state: w[i].state.after_unpark(), worker: Worker::Resuming, ..w[i] },
        ),
        Move::Resume(i) => w.update(i, Link { worker: Worker::Running, ..w[i] }),
        Move::Close(i) => w.update(
            i,
            Link { state: w[i].state.after_close(), worker: Worker::Closed, ..w[i] },
        ),
        Move::Fork(i) => w.push(Link::fresh(Some(i))),
    }
}

/// The world in which a fresh pair starts: one running handle, no request.
pub open spec fn start() -> World {
    seq![Link::fresh(None)]
}

/// A run: it begins at the start, and each world follows from the one before
/// by a step that could be made.
pub open spec fn is_run(worlds: Seq<World>, moves: Seq<Move>) -> bool {
    &&& worlds.len() == moves.len() + 1
    &&& worlds[0] == start()
    &&& forall|k: int|
        0 <= k < moves.len() ==> #[trigger] enabled(worlds[k], moves[k]) && worlds[k + 1] == apply(
            worlds[k],
            moves[k],
        )
}

/// What holds in every world of a run.
pub open spec fn sound(w: World) -> bool {
    &&& w.len() > 0
    &&& w[0].parent is None
    &&& forall|i: int|
        0 < i < w.len() ==> ((#[trigger] w[i]).parent matches Some(p) && 0 <= p < i)
    &&& forall|i: int| 0 <= i < w.len() ==> (#[trigger] w[i]).consistent()
    &&& forall|c: int, p: int| #[trigger] child_of(w, c, p) ==> family(w[p], w[c])
}

/// The change that a step makes to the flags of a pair, if it makes one.
pub open spec fn change_of(m: Move) -> Option<(int, Change)> {
    match m {
        Move::Request(i) => Some((i, Change::Request)),
        Move::Answer(i) => Some((i, Change::Answer)),
        Move::GiveUp => Some((0, Change::Answer)),
        Move::Release(i) => Some((i, Change::Release)),
        Move::Park(i) => Some((i, Change::Park)),
        Move::Unpark(i) => Some((i, Change::Unpark)),
        Move::Close(i) => Some((i, Change::Close)),
        _ => None,
    }
}

/// The flags of a pair change by nothing but the changes of the handshake, and
/// a step that follows on a wait is made in a state that the wait ends with.
pub proof fn lemma_steps_are_handshake_changes(w: World, m: Move, i: int)
    requires
        enabled(w, m),
        in_world(w, i),
    ensures
        apply(w, m)[i].state == (match change_of(m) {
            Some((j, change)) => if i == j {
                change.applied_to(w[i].state)
            } else {
                w[i].state
            },
            None => w[i].state,
        }),
        m == Move::Answer(i) ==> Wake::Settled.met(w[i].state),
        m == Move::Unpark(i) ==> Wake::Released.met(w[i].state),
        m == Move::Released(i) ==> Wake::Resumed.met(w[i].state),
{
}

/// One link may be replaced by another that is consistent and agrees with its
/// parent and its children.
proof fn lemma_update_keeps_sound(w: World, i: int, link: Link)
    requires
        sound(w),
        in_world(w, i),
        link.parent == w[i].parent,
        link.consistent(),
        forall|c: int| #[trigger] child_of(w, c, i) ==> family(link, w[c]),
        forall|p: int| #[trigger] child_of(w, i, p) ==> family(w[p], link),
    ensures
        sound(w.update(i, link)),
{
    let v = w.update(i, link);
    assert forall|k: int| 0 < k < v.len() implies ((#[trigger] v[k]).parent matches Some(p) && 0
        <= p < k) by {
        assert(w[k].parent is Some);
    }
    assert forall|k: int| 0 <= k < v.len() implies (#[trigger] v[k]).consistent() by {
        assert(w[k].consistent());
    }
    assert forall|c: int, p: int| #[trigger] child_of(v, c, p) implies family(v[p], v[c]) by {
        assert(child_of(w, c, p));
        assert(w[c].parent == Some(p));
        assert(p < c);
    }
}

proof fn lemma_fork_keeps_sound(w: World, i: int)
    requires
        sound(w),
        in_world(w, i),
        w[i].worker is Running,
    ensures
        sound(w.push(Link::fresh(Some(i)))),
{
    let v = w.push(Link::fresh(Some(i)));
    assert forall|k: int| 0 < k < v.len() implies ((#[trigger] v[k]).parent matches Some(p) && 0
        <= p < k) by {
        if k < w.len() {
            assert(w[k].parent is Some);
        }
    }
    assert forall|k: int| 0 <= k < v.len() implies (#[trigger] v[k]).consistent() by {
        if k < w.len() {
            assert(w[k].consistent());
        }
    }
    assert forall|c: int, p: int| #[trigger] child_of(v, c, p) implies family(v[p], v[c]) by {
        if c < w.len() {
            assert(child_of(w, c, p));
            assert(w[c].parent == Some(p));
            assert(p < c);
        }
    }
}

pub(crate) proof fn lemma_step_keeps_sound(w: World, m: Move)
    requires
        sound(w),
        enabled(w, m),
    ensures
        sound(apply(w, m)),
{
    match m {
        Move::Fork(i) => lemma_fork_keeps_sound(w, i),
        _ => {
            let i = match m {
                Move::Request(i) => i,
                Move::Answer(i) => i,
                Move::Release(i) => i,
                Move::Released(i) => i,
                Move::Notice(i) => i,
                Move::Park(i) => i,
                Move::Unpark(i) => i,
                Move::Resume(i) => i,
                Move::Close(i) => i,
                _ => 0,
            };
            let link = apply(w, m)[i];
            assert(w[i].consistent());
            assert(link.parent == w[i].parent);
            assert(link.consistent());
            assert forall|c: int| #[trigger] child_of(w, c, i) implies family(link, w[c]) by {
                assert(family(w[i], w[c]));
                assert(w[c].consistent());
            }
            assert forall|p: int| #[trigger] child_of(w, i, p) implies family(w[p], link) by {
                assert(family(w[p], w[i]));
                assert(w[p].consistent());
            }
            lemma_update_keeps_sound(w, i, link);
        },
    }
}

/// Every world of a run is sound: the flags of each pair agree with where its
/// two sides stand, and a parked worker holds all its children.
pub proof fn lemma_runs_stay_sound(worlds: Seq<World>, moves: Seq<Move>, k: int)
    requires
        is_run(worlds, moves),
        0 <= k < worlds.len(),
    ensures
        sound(worlds[k]),
    decreases k,
{
    if k > 0 {
        lemma_runs_stay_sound(worlds, moves, k - 1);
        assert(enabled(worlds[k - 1], moves[k - 1]));
        lemma_step_keeps_sound(worlds[k - 1], moves[k - 1]);
        assert(worlds[(k - 1) + 1] == apply(worlds[k - 1], moves[k - 1]));
    }
}

pub(crate) proof fn lemma_rest_is_inherited(w: World, i: int)
    requires
        sound(w),
        w[0].worker.at_rest(),
        in_world(w, i),
    ensures
        w[i].worker.at_rest(),
    decreases i,
{
    if i > 0 {
        let p = w[i].parent->0;
        assert(w[i].parent is Some);
        lemma_rest_is_inherited(w, p);
        assert(child_of(w, i, p));
        assert(w[i].consistent());
    }
}

/// A guard sees a fully quiesced tree: while the requester holds its answer,
/// every worker of the tree, at whatever depth, is parked or finished.
pub proof fn lemma_guard_sees_quiesced_tree(worlds: Seq<World>, moves: Seq<Move>, k: int, i: int)
    requires
        is_run(worlds, moves),
        0 <= k < worlds.len(),
        worlds[k][0].stopper.holds(),
        in_world(worlds[k], i),
    ensures
        worlds[k][i].worker.at_rest(),
{
    lemma_runs_stay_sound(worlds, moves, k);
    assert(worlds[k][0].consistent());
    lemma_rest_is_inherited(worlds[k], i);
}

/// Children park before their parent: a worker that is parked has every child
/// it fanned out parked or finished.
pub proof fn lemma_parking_is_bottom_up(
    worlds: Seq<World>,
    moves: Seq<Move>,
    k: int,
    c: int,
    p: int,
)
    requires
        is_run(worlds, moves),
        0 <= k < worlds.len(),
        child_of(worlds[k], c, p),
        worlds[k][p].worker is Parked,
    ensures
        worlds[k][c].worker.at_rest(),
{
    lemma_runs_stay_sound(worlds, moves, k);
    let w = worlds[k];
    assert(family(w[p], w[c]));
    assert(w[c].consistent());
}

/// Children resume after their parent: as long as a worker is parked, none of
/// its children can be released.
pub proof fn lemma_children_resume_last(
    worlds: Seq<World>,
    moves: Seq<Move>,
    k: int,
    c: int,
    p: int,
)
    requires
        is_run(worlds, moves),
        0 <= k < worlds.len(),
        child_of(worlds[k], c, p),
        worlds[k][p].worker is Parked,
    ensures
        !enabled(worlds[k], Move::Release(c)),
        !enabled(worlds[k], Move::Unpark(c)),
{
    lemma_runs_stay_sound(worlds, moves, k);
    let w = worlds[k];
    assert(family(w[p], w[c]));
    assert(w[c].consistent());
}

pub(crate) proof fn lemma_nothing_moves_while_held(w: World, m: Move)
    requires
        sound(w),
        w[0].stopper.holds(),
        enabled(w, m),
    ensures
        m == Move::Release(0) || m == Move::LetGo,
{
    assert(w[0].consistent());
    assert forall|i: int| in_world(w, i) implies #[trigger] w[i].worker.at_rest() by {
        lemma_rest_is_inherited(w, i);
    }
    assert(forall|i: int| #[trigger] in_world(w, i) ==> w[i].worker.at_rest());
    let i = match m {
        Move::Request(i) => i,
        Move::Answer(i) => i,
        Move::GiveUp => 0,
        Move::TakeClosed => 0,
        Move::LetGo => 0,
        Move::Release(i) => i,
        Move::Released(i) => i,
        Move::Notice(i) => i,
        Move::Park(i) => i,
        Move::Unpark(i) => i,
        Move::Resume(i) => i,
        Move::Close(i) => i,
        Move::Fork(i) => i,
    };
    assert(in_world(w, i));
    assert(w[i].consistent());
    if i > 0 {
        let p = w[i].parent->0;
        assert(w[i].parent is Some);
        assert(child_of(w, i, p));
        assert(in_world(w, p));
        assert(family(w[p], w[i]));
    }
}

/// While a guard is out, nobody moves but its own requester, which releases the
/// worker or, if that has closed, goes away.
pub proof fn lemma_only_release_resumes_the_world(
    worlds: Seq<World>,
    moves: Seq<Move>,
    k: int,
    m: Move,
)
    requires
        is_run(worlds, moves),
        0 <= k < worlds.len(),
        worlds[k][0].stopper.holds(),
        enabled(worlds[k], m),
    ensures
        m == Move::Release(0) || m == Move::LetGo,
{
    lemma_runs_stay_sound(worlds, moves, k);
    lemma_nothing_moves_while_held(worlds[k], m);
}

/// A worker that comes to its parking place after the requester has given up
/// passes straight through: parked, it can leave at once.
pub proof fn lemma_late_parker_passes_through(worlds: Seq<World>, moves: Seq<Move>, k: int)
    requires
        is_run(worlds, moves),
        0 <= k < worlds.len(),
        worlds[k][0].stopper is Idle,
        enabled(worlds[k], Move::Park(0)),
    ensures
        enabled(apply(worlds[k], Move::Park(0)), Move::Unpark(0)),
{
    lemma_runs_stay_sound(worlds, moves, k);
    assert(worlds[k][0].consistent());
}

/// Some step of the handshake can be made.
pub open spec fn can_go_on(w: World) -> bool {
    exists|m: Move| m.is_handshake() && #[trigger] enabled(w, m)
}

pub(crate) proof fn lemma_goes_on_by(w: World, m: Move)
    requires
        m.is_handshake(),
        enabled(w, m),
    ensures
        can_go_on(w),
{
}

proof fn lemma_resuming_goes_on(w: World, i: int)
    requires
        sound(w),
        in_world(w, i),
        w[i].worker is Resuming,
    ensures
        can_go_on(w),
{
    if forall|c: int|
        #[trigger] child_of(w, c, i) ==> w[c].stopper is Idle || w[c].stopper is HoldsClosed {
        lemma_goes_on_by(w, Move::Resume(i));
    } else {
        let c = choose|c: int|
            #[trigger] child_of(w, c, i) && !(w[c].stopper is Idle || w[c].stopper is HoldsClosed);
        assert(family(w[i], w[c]));
        assert(w[c].consistent());
        if w[c].stopper is HoldsParked {
            lemma_goes_on_by(w, Move::Release(c));
        } else if w[c].state.spec_is_resumed() {
            lemma_goes_on_by(w, Move::Released(c));
        } else {
            lemma_goes_on_by(w, Move::Unpark(c));
        }
    }
}

proof fn lemma_stopping_goes_on(w: World, i: int)
    requires
        sound(w),
        in_world(w, i),
        w[i].worker is Stopping,
    ensures
        can_go_on(w),
    decreases w.len() - i, 0int,
{
    if forall|c: int| #[trigger] child_of(w, c, i) ==> w[c].stopper.holds() {
        lemma_goes_on_by(w, Move::Park(i));
    } else {
        let c = choose|c: int| #[trigger] child_of(w, c, i) && !w[c].stopper.holds();
        assert(family(w[i], w[c]));
        assert(w[c].consistent());
        assert(c > i);
        if w[c].stopper is Idle {
            lemma_goes_on_by(w, Move::Request(c));
        } else {
            lemma_waiting_goes_on(w, c);
        }
    }
}

pub(crate) proof fn lemma_waiting_goes_on(w: World, i: int)
    requires
        sound(w),
        in_world(w, i),
        w[i].stopper is Waiting,
        may_stop(w, i),
    ensures
        can_go_on(w),
    decreases w.len() - i, 1int,
{
    assert(w[i].consistent());
    if w[i].state.spec_is_settled() {
        lemma_goes_on_by(w, Move::Answer(i));
    } else if w[i].worker is Running {
        lemma_goes_on_by(w, Move::Notice(i));
    } else if w[i].worker is Stopping {
        lemma_stopping_goes_on(w, i);
    } else {
        lemma_resuming_goes_on(w, i);
    }
}

proof fn lemma_parked_goes_on(w: World, i: int)
    requires
        sound(w),
        in_world(w, i),
        w[i].worker is Parked,
        !(w[0].stopper is HoldsParked),
    ensures
        can_go_on(w),
    decreases i,
{
    assert(w[i].consistent());
    if !w[i].state.pending_request {
        lemma_goes_on_by(w, Move::Unpark(i));
    } else if i == 0 {
        lemma_goes_on_by(w, Move::Answer(0));
    } else {
        let p = w[i].parent->0;
        assert(w[i].parent is Some);
        assert(child_of(w, i, p));
        assert(family(w[p], w[i]));
        match w[p].worker {
            Worker::Stopping => lemma_stopping_goes_on(w, p),
            Worker::Parked => lemma_parked_goes_on(w, p),
            _ => lemma_resuming_goes_on(w, p),
        }
    }
}

/// The handshake never deadlocks. As long as no guard holds the tree parked,
/// whenever a worker is out of user code or the requester waits for one, some
/// step of the handshake can be made.
pub proof fn lemma_handshake_never_deadlocks(worlds: Seq<World>, moves: Seq<Move>, k: int, i: int)
    requires
        is_run(worlds, moves),
        0 <= k < worlds.len(),
        !(worlds[k][0].stopper is HoldsParked),
        in_world(worlds[k], i),
        !(worlds[k][i].worker is Running || worlds[k][i].worker is Closed)
            || worlds[k][0].stopper is Waiting || worlds[k][0].stopper is Releasing,
    ensures
        can_go_on(worlds[k]),
{
    let w = worlds[k];
    lemma_runs_stay_sound(worlds, moves, k);
    assert(w[0].consistent());
    if w[0].stopper is Waiting {
        lemma_waiting_goes_on(w, 0);
    } else if w[0].stopper is Releasing {
        if w[0].state.spec_is_resumed() {
            lemma_goes_on_by(w, Move::Released(0));
        } else {
            lemma_goes_on_by(w, Move::Unpark(0));
        }
    } else {
        match w[i].worker {
            Worker::Stopping => lemma_stopping_goes_on(w, i),
            Worker::Parked => lemma_parked_goes_on(w, i),
            _ => lemma_resuming_goes_on(w, i),
        }
    }
}

} // verus!
