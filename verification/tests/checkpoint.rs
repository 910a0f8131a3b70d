use servyi_states::checkpoint::{all_finished, retain_open, with_checkpoint_pair};
use servyi_states::handshake::Handshake;
use std::sync::atomic::{AtomicU32, Ordering};
use std::sync::Arc;
use std::time::{Duration, Instant};

#[test]
fn freeze_window_allows_access_then_safepoint() {
    let out = with_checkpoint_pair(vec![Arc::new(AtomicU32::new(7))], |mut h, _req| {
        let items: Vec<Arc<AtomicU32>> = h.block_and_get().clone();
        for mut child in h.fanout(items) {
            assert_eq!(child.block_and_get().load(Ordering::SeqCst), 7);
            child.safepoint();
            child.block_and_get().fetch_add(1, Ordering::SeqCst);
            child.close();
        }
        assert!(h.is_fanning_out());
        h.safepoint();
        assert!(h.fanout_is_over(&vec![true]));
        let out: Vec<u32> =
            h.block_and_get().iter().map(|item| item.load(Ordering::SeqCst)).collect();
        out
    });
    assert_eq!(out, vec![8]);
}

#[test]
fn closed_handle_hands_out_the_guard_at_once() {
    let seen = with_checkpoint_pair(AtomicU32::new(41), |mut h, req| {
        h.block_and_get().fetch_add(1, Ordering::SeqCst);
        h.close();
        let guard = req.request().expect("a closed pair grants");
        let seen = guard.node().load(Ordering::SeqCst);
        guard.resume();
        seen
    });
    assert_eq!(seen, 42);
}

#[test]
fn closed_handle_grants_under_any_limit() {
    with_checkpoint_pair(5u32, |mut h, req| {
        h.close();
        let guard = req.request_timeout(Duration::from_millis(0)).expect("granted");
        assert_eq!(*guard.node(), 5);
    });
}

#[test]
fn guards_follow_one_another() {
    with_checkpoint_pair(5u32, |mut h, req| {
        h.close();
        let other = req.clone();
        for requester in [&req, &other, &req] {
            let guard = requester.request().expect("granted");
            assert_eq!(*guard.node(), 5);
            guard.resume();
        }
    });
}

#[test]
fn request_on_a_running_handle_times_out_and_is_taken_back() {
    with_checkpoint_pair(1u32, |mut h, req| {
        let start = Instant::now();
        assert!(req.request_timeout(Duration::from_millis(30)).is_none());
        assert!(start.elapsed() >= Duration::from_millis(30));
        assert!(!h.is_stop_requested());
        h.safepoint();
        assert_eq!(*h.block_and_get(), 1);
        h.close();
        assert!(req.request().is_some());
    });
}

#[test]
fn request_is_refused_on_a_running_handle_and_granted_on_a_closed_one() {
    with_checkpoint_pair(3u32, |mut h, req| {
        let limit = Some(Duration::from_millis(10));
        assert!(req.request_impl(limit).is_err());
        let children = h.fanout(vec!['a']);
        for mut child in children {
            assert!(!child.is_stop_requested());
            child.close();
        }
        assert!(h.fanout_is_over(&vec![true]));
        h.close();
        let guard = req.request_impl(limit).ok().expect("a closed pair grants");
        assert_eq!(*guard.node(), 3);
    });
}

#[test]
fn safepoint_without_a_request_returns() {
    with_checkpoint_pair("node", |mut h, _req| {
        assert!(!h.is_stop_requested());
        h.safepoint();
        h.safepoint();
        assert_eq!(*h.block_and_get(), "node");
    });
}

#[test]
fn fanout_gives_each_item_a_handle_in_order() {
    let nodes = with_checkpoint_pair((), |mut h, _req| {
        let handles = h.fanout(vec![10u32, 20, 30]);
        let mut nodes: Vec<u32> = Vec::new();
        for mut child in handles {
            nodes.push(*child.block_and_get());
            let grandchildren = child.fanout(vec!['a', 'b']);
            assert_eq!(grandchildren.len(), 2);
        }
        nodes
    });
    assert_eq!(nodes, vec![10, 20, 30]);
}

#[test]
fn pair_returns_what_the_closure_returns() {
    let length = with_checkpoint_pair(String::from("four"), |mut h, _req| h.block_and_get().len());
    assert_eq!(length, 4);
}

#[test]
fn closed_children_are_forgotten_and_the_others_keep_their_order() {
    let mut children = vec![1, 2, 3, 4, 5];
    let outcomes = vec![
        Handshake::Closed,
        Handshake::Parked,
        Handshake::Closed,
        Handshake::TimedOut,
        Handshake::Closed,
    ];
    retain_open(&mut children, &outcomes);
    assert_eq!(children, vec![2, 4]);

    let mut none: Vec<u32> = Vec::new();
    retain_open(&mut none, &Vec::new());
    assert!(none.is_empty());
}

#[test]
fn each_child_has_a_pair_of_its_own() {
    with_checkpoint_pair((), |mut h, _req| {
        let mut children = h.fanout(vec![1u32, 2]);
        let mut second = children.pop().unwrap();
        let mut first = children.pop().unwrap();
        let mut grandchildren = first.fanout(vec!['a']);
        grandchildren.pop().unwrap().close();
        assert!(first.fanout_is_over(&vec![true]));
        first.close();
        assert!(!h.fanout_is_over(&vec![true, false]));
        assert!(!second.is_stop_requested());
        second.safepoint();
        assert_eq!(*second.block_and_get(), 2);
        second.close();
        assert!(h.fanout_is_over(&vec![true, true]));
        assert!(!h.is_fanning_out());
        h.close();
    });
}

#[test]
fn closed_handle_beats_the_longest_and_the_shortest_limit() {
    with_checkpoint_pair(8u32, |h, req| {
        h.close();
        for limit in [Duration::ZERO, Duration::MAX] {
            let guard = req.request_timeout(limit).expect("granted");
            assert_eq!(*guard.node(), 8);
            guard.resume();
        }
    });
}

#[test]
fn guard_that_is_dropped_lets_the_next_request_in() {
    with_checkpoint_pair(6u32, |h, req| {
        h.close();
        drop(req.request().expect("granted"));
        let guard = req.request_timeout(Duration::ZERO).expect("granted");
        assert_eq!(*guard.node(), 6);
        guard.resume();
    });
}

#[test]
fn closing_does_not_wait_for_the_children() {
    with_checkpoint_pair((), |mut h, req| {
        let children = h.fanout(vec![1u32]);
        drop(children);
        assert!(h.fanout_is_over(&vec![true]));
        h.close();
        assert!(req.request_timeout(Duration::ZERO).is_some());
    });
}

#[test]
fn fan_out_is_over_when_every_worker_is_finished() {
    assert!(all_finished(&vec![]));
    assert!(all_finished(&vec![true, true]));
    assert!(!all_finished(&vec![true, false, true]));
}
