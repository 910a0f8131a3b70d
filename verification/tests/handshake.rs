use servyi_states::handshake::{Change, Handshake, ParkState, Wake};

fn state(pending_request: bool, closed: bool, parked: bool) -> ParkState {
    ParkState { pending_request, closed, parked }
}

#[test]
fn fresh_pair_is_running() {
    let fresh = ParkState::new();
    assert!(fresh == state(false, false, false));
    assert!(!fresh.is_settled());
    assert!(fresh.is_resumed());
}

#[test]
fn parked_worker_keeps_the_request_up() {
    let mut pair = state(true, false, true);
    assert!(pair.answer() == Handshake::Parked);
    assert!(pair == state(true, false, true));
}

#[test]
fn parked_worker_wins_over_a_closed_one() {
    let mut pair = state(true, true, true);
    assert!(pair.answer() == Handshake::Parked);
    assert!(pair.pending_request);
}

#[test]
fn closed_worker_takes_the_request_down() {
    let mut pair = state(true, true, false);
    assert!(pair.answer() == Handshake::Closed);
    assert!(pair == state(false, true, false));
}

#[test]
fn running_worker_means_the_wait_timed_out() {
    let mut pair = state(true, false, false);
    assert!(pair.answer() == Handshake::TimedOut);
    assert!(pair == state(false, false, false));
}

#[test]
fn parked_and_closed_grant_access() {
    assert!(Handshake::Parked.grants());
    assert!(Handshake::Closed.grants());
    assert!(!Handshake::TimedOut.grants());
}

#[test]
fn stop_and_release_leave_the_pair_as_it_was() {
    let mut pair = ParkState::new();
    pair.request();
    assert!(Wake::Settled.blocks(&pair));
    pair.park();
    assert!(!Wake::Settled.blocks(&pair));
    assert!(Wake::Released.blocks(&pair));
    assert!(pair.answer() == Handshake::Parked);
    pair.release();
    assert!(!Wake::Released.blocks(&pair));
    assert!(Wake::Resumed.blocks(&pair));
    pair.unpark();
    assert!(!Wake::Resumed.blocks(&pair));
    assert!(pair == ParkState::new());
}

#[test]
fn worker_that_parks_after_the_request_was_given_up_passes_through() {
    let mut pair = ParkState::new();
    pair.request();
    assert!(pair.answer() == Handshake::TimedOut);
    pair.park();
    assert!(!Wake::Released.blocks(&pair));
}

#[test]
fn closing_ends_every_wait_of_the_stopping_side() {
    let mut pair = ParkState::new();
    pair.request();
    pair.close();
    assert!(!Wake::Settled.blocks(&pair));
    assert!(!Wake::Resumed.blocks(&pair));
}

#[test]
fn changes_do_what_their_methods_do() {
    let changes = [
        (Change::Request, state(true, false, false)),
        (Change::Park, state(true, false, true)),
        (Change::Answer, state(true, false, true)),
        (Change::Release, state(false, false, true)),
        (Change::Unpark, state(false, false, false)),
        (Change::Close, state(false, true, false)),
    ];
    let mut pair = ParkState::new();
    for (change, expected) in changes {
        change.apply(&mut pair);
        assert!(pair == expected);
    }
}
